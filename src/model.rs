//! A plain sparse grid that counts the live neighbours of a position directly.
use vstd::prelude::*;

use crate::coord_map::CoordMap;
use crate::grid::{interior, ring, GridCoord};
use crate::life::neighbour_count;

verus! {

/// How many members of `cells` are stored in `m`.
pub open spec fn present<T>(m: Map<GridCoord, T>, cells: Seq<GridCoord>) -> int
    decreases cells.len(),
{
    if cells.len() == 0 {
        0
    } else {
        present(m, cells.drop_last()) + if m.contains_key(cells.last()) {
            1int
        } else {
            0int
        }
    }
}

/// A value of type `T` stored at each occupied coordinate.
pub struct SparseGrid<T> {
    elements: CoordMap<T>,
}

impl<T> View for SparseGrid<T> {
    type V = Map<GridCoord, T>;

    closed spec fn view(&self) -> Map<GridCoord, T> {
        self.elements@
    }
}

impl<T: Copy> SparseGrid<T> {
    /// Only valid coordinates are ever stored.
    pub proof fn lemma_valid_only(&self)
        ensures
            forall|c: GridCoord| #[trigger] self@.contains_key(c) ==> c is Valid,
    {
        self.elements.lemma_valid_only();
    }

    pub fn new() -> (r: Self)
        ensures
            r@ == Map::<GridCoord, T>::empty(),
    {
        SparseGrid { elements: CoordMap::new() }
    }

    /// Stores `v` at `k`; an off-grid position has no cell and is left out.
    pub fn set(&mut self, k: GridCoord, v: T)
        ensures
            k is Valid ==> final(self)@ == old(self)@.insert(k, v),
            k is OutOfBounds ==> final(self)@ == old(self)@,
    {
        self.elements.insert(k, v);
    }

    pub fn unset(&mut self, k: GridCoord)
        ensures
            final(self)@ == old(self)@.remove(k),
    {
        self.elements.remove(&k);
    }

    pub fn get(&self, k: GridCoord) -> (r: Option<T>)
        ensures
            r == if self@.contains_key(k) {
                Some(self@[k])
            } else {
                None
            },
    {
        match self.elements.get(&k) {
            Some(v) => Some(*v),
            None => None,
        }
    }

    /// One if a value is stored at `k`, else zero; always zero off the grid.
    pub fn count(&self, k: GridCoord) -> (r: usize)
        ensures
            r == if self@.contains_key(k) {
                1usize
            } else {
                0usize
            },
            k is OutOfBounds ==> r == 0,
    {
        proof {
            self.lemma_valid_only();
        }
        match k {
            GridCoord::OutOfBounds => 0,
            _ => match self.get(k) {
                Some(_) => 1,
                None => 0,
            },
        }
    }

    /// How many of the eight neighbours of `k` hold a value.
    pub fn count_neighbours(&self, k: GridCoord) -> (r: usize)
        requires
            interior(k),
        ensures
            r == neighbour_count(self@.dom(), k),
    {
        let mut count: usize = 0;
        let ns = k.neighbours();
        for i in 0..8
            invariant
                ns@ == ring(k),
                count == present(self@, ns@.take(i as int)),
                count <= i,
        {
            let v = ns[i];
            proof {
                assert(ns@.take(i + 1).drop_last() =~= ns@.take(i as int));
            }
            count += self.count(v);
        }
        proof {
            self.lemma_valid_only();
            assert(ns@.take(8) =~= ring(k));
            reveal_with_fuel(present, 9);
        }
        count
    }
}

} // verus!
