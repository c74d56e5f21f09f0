//! Grid coordinates and the two engines: the snapshot engine
//! (`SparseGridOld`, `UniverseOld`) and the incremental engine
//! (`SparseGridGenerations`, `Universe`).
use vstd::prelude::*;

use crate::coord_map::CoordMap;
use crate::life::{
    count_of, finalised, gen_tallied, gen_tally_fits, lemma_block_count_bounds,
    lemma_finalise_staged, lemma_occurrences_contains, lemma_occurrences_prefix,
    lemma_occurrences_push, lemma_staged_step, lemma_vote_step, live_set, occurrences, older_than,
    staged, surviving_votes, tallied, tally_fits, touched, votes,
};

verus! {

/// A position on the grid, or the sentinel for a position off the grid.
#[derive(PartialEq, Eq, Structural, Hash, Copy, Clone, Debug)]
pub enum GridCoord {
    Valid(i64, i64),
    OutOfBounds,
}

/// The coordinate `c` moved by `(a, b)`; `OutOfBounds` stays where it is.
pub open spec fn shifted(c: GridCoord, a: int, b: int) -> GridCoord {
    match c {
        GridCoord::Valid(x, y) => GridCoord::Valid((x + a) as i64, (y + b) as i64),
        GridCoord::OutOfBounds => GridCoord::OutOfBounds,
    }
}

/// Moving `c` by `(a, b)` stays on the 64-bit grid.
pub open spec fn can_shift(c: GridCoord, a: int, b: int) -> bool {
    match c {
        GridCoord::Valid(x, y) => i64::MIN <= x + a <= i64::MAX && i64::MIN <= y + b <= i64::MAX,
        GridCoord::OutOfBounds => true,
    }
}

/// Every neighbour of `c` is on the 64-bit grid.
pub open spec fn interior(c: GridCoord) -> bool {
    match c {
        GridCoord::Valid(x, y) => i64::MIN < x < i64::MAX && i64::MIN < y < i64::MAX,
        GridCoord::OutOfBounds => true,
    }
}

/// The 3x3 block around `c` in reading order: NW, N, NE, W, self, E, SW, S, SE.
pub open spec fn block(c: GridCoord) -> Seq<GridCoord> {
    seq![
        shifted(c, -1, -1),
        shifted(c, 0, -1),
        shifted(c, 1, -1),
        shifted(c, -1, 0),
        c,
        shifted(c, 1, 0),
        shifted(c, -1, 1),
        shifted(c, 0, 1),
        shifted(c, 1, 1),
    ]
}

/// The eight neighbours of `c`: the block without its centre.
pub open spec fn ring(c: GridCoord) -> Seq<GridCoord> {
    seq![
        shifted(c, -1, -1),
        shifted(c, 0, -1),
        shifted(c, 1, -1),
        shifted(c, -1, 0),
        shifted(c, 1, 0),
        shifted(c, -1, 1),
        shifted(c, 0, 1),
        shifted(c, 1, 1),
    ]
}

impl GridCoord {
    /// The coordinate moved by `(a, b)`; `OutOfBounds` absorbs every move.
    pub fn adjust(&self, a: i64, b: i64) -> (r: GridCoord)
        requires
            can_shift(*self, a as int, b as int),
        ensures
            r == shifted(*self, a as int, b as int),
    {
        if let GridCoord::Valid(x, y) = self {
            GridCoord::Valid(x + a, y + b)
        } else {
            GridCoord::OutOfBounds
        }
    }

    /// The 3x3 block around the coordinate, itself included, in reading order;
    /// nine sentinels for `OutOfBounds`.
    pub fn expand(&self) -> (r: [GridCoord; 9])
        requires
            interior(*self),
        ensures
            r@ == block(*self),
    {
        if let GridCoord::Valid(_, _) = self {
            [
                self.adjust(-1, -1),
                self.adjust(0, -1),
                self.adjust(1, -1),
                self.adjust(-1, 0),
                *self,
                self.adjust(1, 0),
                self.adjust(-1, 1),
                self.adjust(0, 1),
                self.adjust(1, 1),
            ]
        } else {
            [GridCoord::OutOfBounds; 9]
        }
    }

    /// The eight neighbours in reading order; eight sentinels for `OutOfBounds`.
    pub fn neighbours(&self) -> (r: [GridCoord; 8])
        requires
            interior(*self),
        ensures
            r@ == ring(*self),
    {
        if let GridCoord::Valid(_, _) = self {
            [
                self.adjust(-1, -1),
                self.adjust(0, -1),
                self.adjust(1, -1),
                self.adjust(-1, 0),
                self.adjust(1, 0),
                self.adjust(-1, 1),
                self.adjust(0, 1),
                self.adjust(1, 1),
            ]
        } else {
            [GridCoord::OutOfBounds; 8]
        }
    }
}

} // verus!

verus! {

/// Snapshot grid: a count stored at each occupied coordinate.
pub struct SparseGridOld {
    elements: CoordMap<usize>,
}

impl View for SparseGridOld {
    type V = Map<GridCoord, usize>;

    closed spec fn view(&self) -> Map<GridCoord, usize> {
        self.elements@
    }
}

impl SparseGridOld {
    /// Only valid coordinates are ever stored.
    pub proof fn lemma_valid_only(&self)
        ensures
            forall|c: GridCoord| #[trigger] self@.contains_key(c) ==> c is Valid,
    {
        self.elements.lemma_valid_only();
    }

    pub fn new() -> (r: Self)
        ensures
            r@ == Map::<GridCoord, usize>::empty(),
    {
        SparseGridOld { elements: CoordMap::new() }
    }

    /// Stores `v` at `k`; an off-grid position has no cell and is left out.
    pub fn set(&mut self, k: GridCoord, v: usize)
        ensures
            k is Valid ==> final(self)@ == old(self)@.insert(k, v),
            k is OutOfBounds ==> final(self)@ == old(self)@,
    {
        self.elements.insert(k, v);
    }

    pub fn unset(&mut self, k: GridCoord)
        ensures
            final(self)@ == old(self)@.remove(k),
    {
        self.elements.remove(&k);
    }

    pub fn get(&self, k: &GridCoord) -> (r: Option<usize>)
        ensures
            r == if self@.contains_key(*k) {
                Some(self@[*k])
            } else {
                None
            },
    {
        match self.elements.get(k) {
            Some(v) => Some(*v),
            None => None,
        }
    }

    pub fn is_alive(&self, k: &GridCoord) -> (r: bool)
        ensures
            r == self@.contains_key(*k),
    {
        self.get(k).is_some()
    }

    /// The occupied coordinates, each once, in no particular order.
    pub fn elements(&self) -> (r: Vec<GridCoord>)
        ensures
            self@.dom().finite(),
            r@.no_duplicates(),
            r@.to_set() == self@.dom(),
            r@.len() == self@.len(),
    {
        self.elements.coords()
    }

    /// The occupied coordinates, gathered one entry at a time.
    #[allow(dead_code)]
    fn expand(&self) -> (r: Vec<GridCoord>)
        ensures
            self@.dom().finite(),
            r@.no_duplicates(),
            r@.to_set() == self@.dom(),
            r@.len() == self@.len(),
    {
        let coords = self.elements.coords();
        let mut elements: Vec<GridCoord> = Vec::with_capacity(coords.len());
        for i in 0..coords.len()
            invariant
                elements@ == coords@.take(i as int),
        {
            elements.push(coords[i]);
        }
        assert(elements@ =~= coords@);
        elements
    }

    /// Adds one vote for each occurrence of each valid coordinate of `cells`,
    /// starting a new count at one.
    pub fn tally(&mut self, cells: &[GridCoord])
        requires
            tally_fits(old(self)@, cells@),
        ensures
            final(self)@ == tallied(old(self)@, cells@),
    {
        let ghost start = self@;
        for i in 0..cells.len()
            invariant
                tally_fits(start, cells@),
                self@ == tallied(start, cells@.take(i as int)),
        {
            let c = cells[i];
            proof {
                lemma_occurrences_prefix(cells@, i as int, c);
                lemma_occurrences_prefix(cells@, i + 1, c);
                assert(cells@.take(i + 1) =~= cells@.take(i as int).push(c));
                lemma_occurrences_push(cells@.take(i as int), c, c);
            }
            proof {
                self.lemma_valid_only();
            }
            let count = match self.get(&c) {
                Some(v) => v + 1,
                None => 1,
            };
            let ghost before = self@;
            self.set(c, count);
            proof {
                let prev = cells@.take(i as int);
                let next = cells@.take(i + 1);
                assert forall|d: GridCoord| #[trigger] next.contains(d) <==> prev.contains(d) || d == c by {
                    lemma_occurrences_push(prev, c, d);
                    lemma_occurrences_contains(prev, d);
                    lemma_occurrences_contains(next, d);
                }
                assert forall|d: GridCoord| d != c implies occurrences(next, d) == occurrences(prev, d) by {
                    lemma_occurrences_push(prev, c, d);
                }
                assert forall|d: GridCoord| #[trigger] self@.contains_key(d) == tallied(start, next).contains_key(d)
                    && (self@.contains_key(d) ==> self@[d] == tallied(start, next)[d]) by {
                    lemma_occurrences_push(prev, c, d);
                    if d == c && c is Valid {
                        lemma_occurrences_contains(prev, c);
                        assert(count_of(before, c) == count_of(start, c) + occurrences(prev, c));
                    }
                }
                assert(self@ =~= tallied(start, next));
            }
        }
        assert(cells@.take(cells.len() as int) =~= cells@);
    }

    /// Keeps the entries on which `f` answers true and drops the others;
    /// nothing is added and no kept count changes.
    pub fn retain<F>(&mut self, f: F)
        where
            F: Fn(&GridCoord, &usize) -> bool,
        requires
            forall|c: GridCoord, v: usize| f.requires((&c, &v)),
        ensures
            forall|c: GridCoord| #[trigger]
                final(self)@.contains_key(c) ==> old(self)@.contains_key(c) && final(self)@[c]
                    == old(self)@[c] && f.ensures((&c, &old(self)@[c]), true),
            forall|c: GridCoord| #[trigger]
                old(self)@.contains_key(c) && !final(self)@.contains_key(c) ==> f.ensures(
                    (&c, &old(self)@[c]),
                    false,
                ),
    {
        let ghost start = self@;
        let coords = self.elements.coords();
        for i in 0..coords.len()
            invariant
                coords@.no_duplicates(),
                coords@.to_set() == start.dom(),
                forall|c: GridCoord, v: usize| f.requires((&c, &v)),
                forall|c: GridCoord| #[trigger]
                    self@.contains_key(c) ==> start.contains_key(c) && self@[c] == start[c],
                forall|j: int|
                    #![trigger coords@[j]]
                    i <= j < coords@.len() ==> self@.contains_key(coords@[j]),
                forall|j: int|
                    #![trigger coords@[j]]
                    0 <= j < i && self@.contains_key(coords@[j]) ==> f.ensures(
                        (&coords@[j], &start[coords@[j]]),
                        true,
                    ),
                forall|j: int|
                    #![trigger coords@[j]]
                    0 <= j < i && !self@.contains_key(coords@[j]) ==> f.ensures(
                        (&coords@[j], &start[coords@[j]]),
                        false,
                    ),
        {
            let c = coords[i];
            proof {
                assert(coords@.to_set().contains(c));
            }
            let v = self.get(&c).unwrap();
            let keep = f(&c, &v);
            if !keep {
                self.unset(c);
            }
            proof {
                assert forall|j: int| i < j < coords@.len() implies coords@[j] != c by {}
                assert forall|j: int| 0 <= j < i implies coords@[j] != c by {}
            }
        }
        proof {
            assert forall|c: GridCoord| #[trigger] self@.contains_key(c) implies f.ensures(
                (&c, &start[c]),
                true,
            ) by {
                assert(coords@.to_set().contains(c));
                let j = choose|j: int| 0 <= j < coords@.len() && coords@[j] == c;
            }
            assert forall|c: GridCoord| #[trigger]
                start.contains_key(c) && !self@.contains_key(c) implies f.ensures(
                (&c, &start[c]),
                false,
            ) by {
                assert(coords@.to_set().contains(c));
                let j = choose|j: int| 0 <= j < coords@.len() && coords@[j] == c;
            }
        }
    }

    pub fn len(&self) -> (r: usize)
        ensures
            self@.dom().finite(),
            r == self@.len(),
    {
        self.elements.len()
    }
}

} // verus!

verus! {

/// Conway's rule on a tally: three votes, or four with the cell alive in `grid`.
pub open spec fn rule_keeps(grid: Map<GridCoord, usize>, c: GridCoord, votes: usize) -> bool {
    votes == 3 || (votes == 4 && grid.contains_key(c))
}

/// The snapshot engine: a grid rebuilt from scratch each generation.
pub struct UniverseOld {
    pub grid: SparseGridOld,
    pub generation: usize,
}

impl UniverseOld {
    pub fn new() -> (r: UniverseOld)
        ensures
            r.grid@ == Map::<GridCoord, usize>::empty(),
            r.generation == 0,
    {
        UniverseOld { grid: SparseGridOld::new(), generation: 0 }
    }

    /// Advances one generation and returns how many cells were alive before it.
    ///
    /// The new grid holds each coordinate that Conway's rule keeps alive,
    /// with the number of live cells in its 3x3 block before the step.
    pub fn update(&mut self) -> (r: usize)
        requires
            old(self).generation < usize::MAX,
            forall|c: GridCoord| #[trigger] old(self).grid@.contains_key(c) ==> interior(c),
        ensures
            final(self).generation == old(self).generation + 1,
            final(self).grid@ == surviving_votes(old(self).grid@.dom()),
            r == old(self).grid@.len(),
    {
        self.generation += 1;
        let mut cell_count: usize = 0;
        let mut next = SparseGridOld::new();
        let cells = self.grid.elements();
        let ghost live = self.grid@.dom();
        proof {
            self.grid.lemma_valid_only();
            assert(votes(cells@.take(0).to_set()) =~= next@);
        }
        for i in 0..cells.len()
            invariant
                cells@.no_duplicates(),
                cells@.to_set() == live,
                live == self.grid@.dom(),
                forall|c: GridCoord| #[trigger] live.contains(c) ==> c is Valid && interior(c),
                next@ == votes(cells@.take(i as int).to_set()),
                cell_count == i,
        {
            let c = cells[i];
            proof {
                assert(cells@.contains(c));
                assert(live.contains(c));
            }
            let block = c.expand();
            let ghost before = cells@.take(i as int).to_set();
            proof {
                Seq::lemma_to_set_insert_commutes(cells@.take(i as int), c);
                assert(cells@.take(i as int) + seq![c] =~= cells@.take(i + 1));
                assert(cells@.take(i + 1) =~= cells@.take(i as int).push(c));
                assert(!before.contains(c)) by {
                    if before.contains(c) {
                        let j = choose|j: int| 0 <= j < i && cells@[j] == c;
                    }
                }
                assert(cells@.take(i + 1).to_set() =~= before.insert(c));
                lemma_vote_step(before, c);
            }
            next.tally(&block);
            proof {
                assert(next@ == votes(before.insert(c)));
            }
            cell_count += 1;
        }
        proof {
            assert(cells@.take(cells.len() as int) =~= cells@);
        }
        let grid = &self.grid;
        let rule = |gc: &GridCoord, v: &usize| -> (keep: bool)
            ensures
                keep == rule_keeps(grid@, *gc, *v),
        {
            let alive = grid.is_alive(gc);
            *v == 3 || (*v == 4 && alive)
        };
        next.retain(rule);
        proof {
            assert forall|c: GridCoord| #[trigger] next@.contains_key(c) == surviving_votes(live).contains_key(c)
                && (next@.contains_key(c) ==> next@[c] == surviving_votes(live)[c]) by {
                lemma_block_count_bounds(live, c);
            }
            assert(next@ =~= surviving_votes(live));
        }
        self.grid = next;
        cell_count
    }
}

} // verus!

verus! {

/// `c` lies in the rectangle `[x0, x0 + width) x [y0, y0 + height)`.
pub open spec fn in_rect(c: GridCoord, x0: int, y0: int, width: int, height: int) -> bool {
    match c {
        GridCoord::Valid(x, y) => x0 <= x < x0 + width && y0 <= y < y0 + height,
        GridCoord::OutOfBounds => false,
    }
}

/// The position of `c`'s outcome when a rectangle of height `height` at
/// `(x0, y0)` is seeded column by column.
pub open spec fn coin_index(c: GridCoord, x0: int, y0: int, height: int) -> int {
    match c {
        GridCoord::Valid(x, y) => (x - x0) * height + (y - y0),
        GridCoord::OutOfBounds => 0,
    }
}

/// `c` comes before `(px, py)` column by column.
pub open spec fn seeded_before(c: GridCoord, px: int, py: int) -> bool {
    match c {
        GridCoord::Valid(x, y) => x < px || (x == px && y < py),
        GridCoord::OutOfBounds => false,
    }
}

/// `m` after the positions of the rectangle that come before `(px, py)`
/// whose outcome in `coins` is true are set to `cell`.
pub open spec fn seeded_block(
    m: Map<GridCoord, Cell>,
    x0: int,
    y0: int,
    width: int,
    height: int,
    coins: Seq<bool>,
    cell: Cell,
    px: int,
    py: int,
) -> Map<GridCoord, Cell> {
    Map::new(
        |c: GridCoord|
            m.contains_key(c) || (in_rect(c, x0, y0, width, height) && seeded_before(c, px, py)
                && coins[coin_index(c, x0, y0, height)]),
        |c: GridCoord|
            if in_rect(c, x0, y0, width, height) && seeded_before(c, px, py) && coins[coin_index(
                c,
                x0,
                y0,
                height,
            )] {
                cell
            } else {
                m[c]
            },
    )
}

/// Relies on `rand::random::<bool>`: a fair coin from the thread-local
/// generator. Nothing is known of the outcome.
#[verifier::external_body]
fn coin() -> (r: bool) {
    rand::random()
}

/// The state of one position in the incremental grid.
#[derive(Clone, Copy, Debug)]
pub struct Cell {
    pub is_alive: bool,
    pub generation: usize,
    pub tally: usize,
}

} // verus!

verus! {

/// Incremental grid: one persistent map of generation-stamped cells.
#[derive(Debug)]
pub struct SparseGridGenerations {
    elements: CoordMap<Cell>,
    generation: usize,
}

impl View for SparseGridGenerations {
    type V = Map<GridCoord, Cell>;

    closed spec fn view(&self) -> Map<GridCoord, Cell> {
        self.elements@
    }
}

impl SparseGridGenerations {
    /// The generation that `set` stamps on the cells it seeds.
    pub closed spec fn stamp(&self) -> usize {
        self.generation
    }

    /// Only valid coordinates are ever stored.
    pub proof fn lemma_valid_only(&self)
        ensures
            forall|c: GridCoord| #[trigger] self@.contains_key(c) ==> c is Valid,
    {
        self.elements.lemma_valid_only();
    }

    pub fn new() -> (r: Self)
        ensures
            r@ == Map::<GridCoord, Cell>::empty(),
            r.stamp() == 0,
    {
        SparseGridGenerations { elements: CoordMap::new(), generation: 0 }
    }

    /// Seeds a live cell at `k`, stamped with the grid's generation and no votes;
    /// an off-grid position has no cell and is left out.
    pub fn set(&mut self, k: GridCoord)
        ensures
            final(self).stamp() == old(self).stamp(),
            k is Valid ==> final(self)@ == old(self)@.insert(
                k,
                Cell { is_alive: true, generation: old(self).stamp(), tally: 0 },
            ),
            k is OutOfBounds ==> final(self)@ == old(self)@,
    {
        self.elements.insert(k, Cell { is_alive: true, generation: self.generation, tally: 0 });
    }

    pub fn unset(&mut self, k: GridCoord)
        ensures
            final(self).stamp() == old(self).stamp(),
            final(self)@ == old(self)@.remove(k),
    {
        self.elements.remove(&k);
    }

    /// Whether `k` holds an entry flagged alive, however old the entry is.
    pub fn is_alive(&self, k: &GridCoord) -> (r: bool)
        ensures
            r == live_set(self@).contains(*k),
    {
        match self.elements.get(k) {
            Some(v) => v.is_alive,
            None => false,
        }
    }

    /// The live cells, each once, in no particular order.
    pub fn live_cells(&self) -> (r: Vec<GridCoord>)
        ensures
            live_set(self@).finite(),
            r@.no_duplicates(),
            r@.to_set() == live_set(self@),
            r@.len() == live_set(self@).len(),
    {
        let entries = self.elements.entries();
        let mut r: Vec<GridCoord> = Vec::new();
        for i in 0..entries.len()
            invariant
                forall|j: int|
                    #![trigger entries@[j]]
                    0 <= j < entries@.len() ==> self@.contains_key(entries@[j].0) && *entries@[j].1
                        == self@[entries@[j].0],
                forall|j: int, l: int|
                    #![trigger entries@[j], entries@[l]]
                    0 <= j < l < entries@.len() ==> entries@[j].0 != entries@[l].0,
                r@.no_duplicates(),
                forall|c: GridCoord|
                    r@.contains(c) <==> exists|j: int|
                        0 <= j < i && #[trigger] entries@[j].0 == c && entries@[j].1.is_alive,
        {
            let (c, v) = entries[i];
            let ghost prev = r@;
            if v.is_alive {
                proof {
                    if r@.contains(c) {
                        let j = choose|j: int|
                            0 <= j < i && #[trigger] entries@[j].0 == c && entries@[j].1.is_alive;
                        assert(entries@[j].0 != entries@[i as int].0);
                    }
                }
                r.push(c);
            }
            proof {
                assert forall|d: GridCoord|
                    r@.contains(d) <==> exists|j: int|
                        0 <= j < i + 1 && #[trigger] entries@[j].0 == d && entries@[j].1.is_alive by {
                    if v.is_alive {
                        assert(r@ == prev.push(c));
                        if r@.contains(d) && d != c {
                            let l = choose|l: int| 0 <= l < r@.len() && r@[l] == d;
                            assert(prev[l] == d);
                        }
                        if prev.contains(d) {
                            let l = choose|l: int| 0 <= l < prev.len() && prev[l] == d;
                            assert(r@[l] == d);
                        }
                        assert(r@[prev.len() as int] == c);
                    }
                    if exists|j: int| 0 <= j < i + 1 && #[trigger] entries@[j].0 == d && entries@[j].1.is_alive {
                        let j = choose|j: int| 0 <= j < i + 1 && #[trigger] entries@[j].0 == d && entries@[j].1.is_alive;
                        if j < i {
                            assert(prev.contains(d));
                        }
                    }
                }
            }
        }
        proof {
            assert forall|c: GridCoord| r@.contains(c) <==> live_set(self@).contains(c) by {
                if live_set(self@).contains(c) {
                    let j = choose|j: int| 0 <= j < entries@.len() && entries@[j].0 == c;
                    assert(entries@[j].0 == c);
                }
            }
            assert(r@.to_set() =~= live_set(self@));
            r@.unique_seq_to_set();
        }
        r
    }

    /// The live cells, as `live_cells` gives them; the grid stores packed keys,
    /// not coordinates, so there is nothing to lend out.
    pub fn live_cells_ref(&self) -> (r: Vec<GridCoord>)
        ensures
            live_set(self@).finite(),
            r@.no_duplicates(),
            r@.to_set() == live_set(self@),
            r@.len() == live_set(self@).len(),
    {
        self.live_cells()
    }

    /// Casts one vote at `generation` for each occurrence of each valid
    /// coordinate of `cells`: an entry stamped earlier restarts its tally at
    /// one, a missing one is added dead with a tally of one.
    fn tally(&mut self, generation: usize, cells: &[GridCoord])
        requires
            gen_tally_fits(old(self)@, generation, cells@),
        ensures
            final(self).stamp() == old(self).stamp(),
            final(self)@ == gen_tallied(old(self)@, generation, cells@),
    {
        let ghost start = self@;
        proof {
            assert(self@ =~= gen_tallied(start, generation, cells@.take(0)));
        }
        for i in 0..cells.len()
            invariant
                gen_tally_fits(start, generation, cells@),
                self.stamp() == old(self).stamp(),
                self@ == gen_tallied(start, generation, cells@.take(i as int)),
        {
            let c = cells[i];
            let ghost prev = cells@.take(i as int);
            let ghost next = cells@.take(i + 1);
            proof {
                self.lemma_valid_only();
                lemma_occurrences_prefix(cells@, i as int, c);
                lemma_occurrences_prefix(cells@, i + 1, c);
                assert(next =~= prev.push(c));
                lemma_occurrences_push(prev, c, c);
                lemma_occurrences_contains(prev, c);
            }
            let ghost before = self@;
            match self.elements.get(&c) {
                Some(v) => {
                    let mut cell = *v;
                    if cell.generation < generation {
                        cell.generation = generation;
                        cell.tally = 1;
                    } else {
                        cell.tally += 1;
                    }
                    self.elements.insert(c, cell);
                },
                None => {
                    self.elements.insert(c, Cell { is_alive: false, generation, tally: 1 });
                },
            }
            proof {
                assert forall|d: GridCoord| #[trigger] next.contains(d) <==> prev.contains(d) || d == c by {
                    lemma_occurrences_push(prev, c, d);
                    lemma_occurrences_contains(prev, d);
                    lemma_occurrences_contains(next, d);
                }
                let t = gen_tallied(start, generation, next);
                assert forall|d: GridCoord| #[trigger] self@.contains_key(d) == t.contains_key(d) && (
                self@.contains_key(d) ==> self@[d] == t[d]) by {
                    lemma_occurrences_push(prev, c, d);
                    lemma_occurrences_contains(prev, d);
                }
                assert(self@ =~= gen_tallied(start, generation, next));
            }
        }
        assert(cells@.take(cells.len() as int) =~= cells@);
    }

    /// The seeded cell that `set` stores.
    pub open spec fn seeded(&self) -> Cell {
        Cell { is_alive: true, generation: self.stamp(), tally: 0 }
    }

    /// Seeds alive each position `(x, y)` of the rectangle
    /// `[x0, x0 + width) x [y0, y0 + height)` whose outcome
    /// `coins[(x - x0) * height + (y - y0)]` is true, column by column;
    /// every other position keeps what it held.
    pub fn seed_block(&mut self, x0: i64, y0: i64, width: i64, height: i64, coins: &Vec<bool>)
        requires
            0 <= width,
            0 <= height,
            x0 + width <= i64::MAX,
            y0 + height <= i64::MAX,
            coins@.len() == width * height,
        ensures
            final(self).stamp() == old(self).stamp(),
            final(self)@ == seeded_block(
                old(self)@,
                x0 as int,
                y0 as int,
                width as int,
                height as int,
                coins@,
                old(self).seeded(),
                x0 + width,
                y0 as int,
            ),
    {
        let ghost start = self@;
        let ghost cell = self.seeded();
        let x1 = x0 + width;
        let y1 = y0 + height;
        let n = coins.len();
        let mut k: usize = 0;
        let mut x = x0;
        proof {
            assert(start =~= seeded_block(
                start, x0 as int, y0 as int, width as int, height as int, coins@, cell, x0 as int, y0 as int,
            ));
        }
        while x < x1
            invariant
                x0 <= x <= x1,
                x1 == x0 + width,
                y1 == y0 + height,
                0 <= height,
                coins@.len() == width * height,
                n == coins@.len(),
                k == (x - x0) * height,
                self.stamp() == old(self).stamp(),
                cell == old(self).seeded(),
                self@ == seeded_block(
                    start, x0 as int, y0 as int, width as int, height as int, coins@, cell, x as int, y0 as int,
                ),
            decreases x1 - x,
        {
            let mut y = y0;
            while y < y1
                invariant
                    x0 <= x < x1,
                    y0 <= y <= y1,
                    x1 == x0 + width,
                    y1 == y0 + height,
                    0 <= height,
                    coins@.len() == width * height,
                    n == coins@.len(),
                    k == (x - x0) * height + (y - y0),
                    self.stamp() == old(self).stamp(),
                    cell == old(self).seeded(),
                    self@ == seeded_block(
                        start, x0 as int, y0 as int, width as int, height as int, coins@, cell, x as int, y as int,
                    ),
                decreases y1 - y,
            {
                proof {
                    let (i, j, h, w) = ((x - x0) as int, (y - y0) as int, height as int, width as int);
                    assert(i * h + j < w * h) by (nonlinear_arith)
                        requires
                            0 <= i < w,
                            0 <= j < h,
                    ;
                }
                let c = GridCoord::Valid(x, y);
                if coins[k] {
                    self.set(c);
                }
                proof {
                    let next = seeded_block(
                        start, x0 as int, y0 as int, width as int, height as int, coins@, cell, x as int, y + 1,
                    );
                    assert(coin_index(c, x0 as int, y0 as int, height as int) == k);
                    assert(self@ =~= next);
                }
                k += 1;
                y += 1;
            }
            proof {
                let (i, h) = ((x - x0) as int, height as int);
                assert((i + 1) * h == i * h + h) by (nonlinear_arith);
                assert(self@ =~= seeded_block(
                    start, x0 as int, y0 as int, width as int, height as int, coins@, cell, x + 1, y0 as int,
                ));
            }
            x += 1;
        }
    }

    /// Seeds each position of the rectangle `[x0, x0 + width) x [y0, y0 + height)`
    /// alive or leaves it as it was, by a coin toss per position, column by column.
    /// Nothing outside the rectangle changes.
    pub fn seed_rand(&mut self, x0: i64, y0: i64, width: i64, height: i64)
        requires
            i64::MIN <= x0 + width <= i64::MAX,
            i64::MIN <= y0 + height <= i64::MAX,
        ensures
            final(self).stamp() == old(self).stamp(),
            forall|c: GridCoord| #[trigger]
                final(self)@.contains_key(c) || old(self)@.contains_key(c) ==> {
                    ||| (final(self)@.contains_key(c) == old(self)@.contains_key(c) && (
                    final(self)@.contains_key(c) ==> final(self)@[c] == old(self)@[c]))
                    ||| (in_rect(c, x0 as int, y0 as int, width as int, height as int)
                        && final(self)@.contains_key(c) && final(self)@[c] == old(self).seeded())
                },
    {
        let w = if width < 0 {
            0
        } else {
            width
        };
        let h = if height < 0 {
            0
        } else {
            height
        };
        let mut coins: Vec<bool> = Vec::new();
        let mut i: i64 = 0;
        while i < w
            invariant
                0 <= i <= w,
                0 <= h,
                coins@.len() == i * h,
            decreases w - i,
        {
            let mut j: i64 = 0;
            while j < h
                invariant
                    0 <= i < w,
                    0 <= j <= h,
                    coins@.len() == i * h + j,
                decreases h - j,
            {
                coins.push(coin());
                j += 1;
            }
            assert((i + 1) * h == i * h + h) by (nonlinear_arith);
            i += 1;
        }
        self.seed_block(x0, y0, w, h, &coins);
    }

    /// Whether the grid may be advanced as generation `generation + 1`: no
    /// entry, and no cell that `set` seeds, is stamped later than
    /// `generation`, and every live cell has all its neighbours on the grid.
    pub fn ready_for(&self, generation: usize) -> (r: bool)
        ensures
            r == (self.stamp() <= generation && (forall|c: GridCoord| #[trigger]
                self@.contains_key(c) ==> self@[c].generation <= generation) && (forall|c: GridCoord|
                #[trigger] live_set(self@).contains(c) ==> interior(c))),
    {
        if self.generation > generation {
            return false;
        }
        let entries = self.elements.entries();
        for i in 0..entries.len()
            invariant
                forall|j: int|
                    #![trigger entries@[j]]
                    0 <= j < entries@.len() ==> self@.contains_key(entries@[j].0) && *entries@[j].1
                        == self@[entries@[j].0],
                forall|j: int|
                    #![trigger entries@[j]]
                    0 <= j < i ==> entries@[j].1.generation <= generation && (entries@[j].1.is_alive
                        ==> interior(entries@[j].0)),
        {
            let (c, v) = entries[i];
            if v.generation > generation {
                return false;
            }
            if v.is_alive {
                match c {
                    GridCoord::Valid(x, y) => {
                        if x == i64::MIN || x == i64::MAX || y == i64::MIN || y == i64::MAX {
                            assert(live_set(self@).contains(c));
                            return false;
                        }
                    },
                    GridCoord::OutOfBounds => {},
                }
            }
        }
        proof {
            assert forall|c: GridCoord| #[trigger] self@.contains_key(c) implies self@[c].generation
                <= generation && (self@[c].is_alive ==> interior(c)) by {
                let j = choose|j: int| 0 <= j < entries@.len() && entries@[j].0 == c;
                assert(entries@[j].0 == c);
            }
        }
        true
    }

    /// Closes `generation`: each entry stamped with it takes Conway's rule on
    /// its tally, and every other entry is dropped.
    fn finalise(&mut self, generation: usize)
        ensures
            final(self).stamp() == old(self).stamp(),
            final(self)@ == finalised(old(self)@, generation),
    {
        let ghost start = self@;
        let coords = self.elements.coords();
        for i in 0..coords.len()
            invariant
                coords@.no_duplicates(),
                coords@.to_set() == start.dom(),
                self.stamp() == old(self).stamp(),
                forall|j: int|
                    #![trigger coords@[j]]
                    i <= j < coords@.len() ==> self@.contains_key(coords@[j]) && self@[coords@[j]]
                        == start[coords@[j]],
                forall|c: GridCoord| #[trigger]
                    self@.contains_key(c) ==> start.contains_key(c),
                forall|j: int|
                    #![trigger coords@[j]]
                    0 <= j < i ==> (self@.contains_key(coords@[j]) == finalised(start, generation).contains_key(coords@[j]))
                        && (self@.contains_key(coords@[j]) ==> self@[coords@[j]] == finalised(start, generation)[coords@[j]]),
        {
            let c = coords[i];
            proof {
                self.lemma_valid_only();
                assert(coords@.contains(c));
                assert forall|j: int| i < j < coords@.len() implies coords@[j] != c by {}
                assert forall|j: int| 0 <= j < i implies coords@[j] != c by {}
            }
            let cell = *self.elements.get(&c).unwrap();
            if cell.generation == generation {
                let t = cell.tally;
                self.elements.insert(
                    c,
                    Cell { is_alive: t == 3 || (t == 4 && cell.is_alive), ..cell },
                );
            } else {
                self.elements.remove(&c);
            }
            proof {
                let f = finalised(start, generation);
                assert(start.contains_key(c) && start[c] == cell);
                assert(self@.contains_key(c) == f.contains_key(c));
                assert(self@.contains_key(c) ==> self@[c] == f[c]);
            }
        }
        proof {
            let f = finalised(start, generation);
            assert forall|c: GridCoord| #[trigger] self@.contains_key(c) == f.contains_key(c) && (
            self@.contains_key(c) ==> self@[c] == f[c]) by {
                if start.contains_key(c) {
                    assert(coords@.to_set().contains(c));
                    let j = choose|j: int| 0 <= j < coords@.len() && coords@[j] == c;
                }
            }
            assert(self@ =~= f);
        }
    }
}

} // verus!

verus! {

/// The incremental engine: one grid updated in place, generation by generation.
pub struct Universe {
    pub grid: SparseGridGenerations,
    pub generation: usize,
}

impl Universe {
    /// No entry of the grid, and no cell that `set` will seed, is stamped
    /// later than the universe's generation.
    pub open spec fn wf(&self) -> bool {
        &&& self.grid.stamp() <= self.generation
        &&& forall|c: GridCoord| #[trigger]
            self.grid@.contains_key(c) ==> self.grid@[c].generation <= self.generation
    }

    pub fn new() -> (r: Self)
        ensures
            r.wf(),
            r.grid@ == Map::<GridCoord, Cell>::empty(),
            r.generation == 0,
    {
        Universe { grid: SparseGridGenerations::new(), generation: 0 }
    }

    /// Whether `update` may be called now.
    pub fn can_update(&self) -> (r: bool)
        ensures
            r == (self.wf() && self.generation < usize::MAX && (forall|c: GridCoord| #[trigger]
                live_set(self.grid@).contains(c) ==> interior(c))),
    {
        self.generation < usize::MAX && self.grid.ready_for(self.generation)
    }

    /// Advances one generation and returns how many cells were alive before it.
    ///
    /// Afterwards the grid holds one entry per position near a cell that was
    /// alive, stamped with the new generation, with its block count as tally
    /// and alive exactly where Conway's rule says.
    pub fn update(&mut self) -> (r: usize)
        requires
            old(self).wf(),
            old(self).generation < usize::MAX,
            forall|c: GridCoord| #[trigger] live_set(old(self).grid@).contains(c) ==> interior(c),
        ensures
            final(self).wf(),
            final(self).generation == old(self).generation + 1,
            final(self).grid.stamp() == old(self).grid.stamp(),
            final(self).grid@ == touched(live_set(old(self).grid@), final(self).generation),
            r == live_set(old(self).grid@).len(),
    {
        self.generation += 1;
        let mut cell_count: usize = 0;
        let cells = self.grid.live_cells();
        let ghost start = self.grid@;
        let ghost live = live_set(start);
        proof {
            self.grid.lemma_valid_only();
            assert(staged(start, self.generation, cells@.take(0).to_set()) =~= start);
        }
        for i in 0..cells.len()
            invariant
                cells@.no_duplicates(),
                cells@.to_set() == live,
                live == live_set(start),
                forall|c: GridCoord| #[trigger] live.contains(c) ==> c is Valid && interior(c),
                older_than(start, self.generation),
                self.generation == old(self).generation + 1,
                self.grid.stamp() == old(self).grid.stamp(),
                self.grid@ == staged(start, self.generation, cells@.take(i as int).to_set()),
                cell_count == i,
        {
            let c = cells[i];
            proof {
                assert(cells@.contains(c));
                assert(live.contains(c));
            }
            let block = c.expand();
            let ghost before = cells@.take(i as int).to_set();
            proof {
                Seq::lemma_to_set_insert_commutes(cells@.take(i as int), c);
                assert(cells@.take(i as int) + seq![c] =~= cells@.take(i + 1));
                assert(!before.contains(c)) by {
                    if before.contains(c) {
                        let j = choose|j: int| 0 <= j < i && cells@[j] == c;
                    }
                }
                lemma_staged_step(start, self.generation, before, c);
            }
            self.grid.tally(self.generation, &block);
            cell_count += 1;
        }
        proof {
            assert(cells@.take(cells.len() as int) =~= cells@);
            lemma_finalise_staged(start, self.generation);
        }
        self.grid.finalise(self.generation);
        cell_count
    }
}

} // verus!

verus! {

/// Moving a coordinate by nothing leaves it in place, and two moves in a row
/// are one move by their sum.
pub proof fn lemma_adjust_laws(c: GridCoord, a: i64, b: i64, d: i64, e: i64)
    requires
        can_shift(c, a as int, b as int),
        can_shift(shifted(c, a as int, b as int), d as int, e as int),
        i64::MIN <= a + d <= i64::MAX,
        i64::MIN <= b + e <= i64::MAX,
    ensures
        can_shift(c, 0, 0),
        shifted(c, 0, 0) == c,
        can_shift(c, a + d, b + e),
        shifted(shifted(c, a as int, b as int), d as int, e as int) == shifted(c, a + d, b + e),
{
}

/// The off-grid sentinel absorbs every move, and its block is nine sentinels.
pub proof fn lemma_out_of_bounds_absorbs(a: int, b: int)
    ensures
        shifted(GridCoord::OutOfBounds, a, b) == GridCoord::OutOfBounds,
        block(GridCoord::OutOfBounds) == Seq::new(9, |i: int| GridCoord::OutOfBounds),
{
    assert(block(GridCoord::OutOfBounds) =~= Seq::new(9, |i: int| GridCoord::OutOfBounds));
}

} // verus!
