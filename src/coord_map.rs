//! A hash map keyed by grid coordinates.
//!
//! The map hashes each valid coordinate through an integer key, the pair
//! `(x, y)` packed into 128 bits, and reads coordinates back from the keys.
//! Off-grid positions (`OutOfBounds`) are never stored.
use vstd::prelude::*;
use std::collections::HashMap;
use vstd::std_specs::iter::IteratorSpec;

use crate::grid::GridCoord;

verus! {

broadcast use vstd::std_specs::hash::group_hash_axioms;

/// Offset that turns an `i64` into a non-negative 64-bit number.
pub const HALF: i128 = 0x8000_0000_0000_0000;

/// Multiplier that places the packed `x` above the packed `y`.
pub const SHIFT: u128 = 0x1_0000_0000_0000_0000;

/// The packed key of the position `(x, y)`.
pub open spec fn key_of(x: i64, y: i64) -> u128 {
    ((x + HALF) * SHIFT + (y + HALF)) as u128
}

/// The packed key of a coordinate; `OutOfBounds` has none and maps to zero.
pub open spec fn coord_key(c: GridCoord) -> u128 {
    match c {
        GridCoord::Valid(x, y) => key_of(x, y),
        GridCoord::OutOfBounds => 0,
    }
}

/// Distinct positions have distinct keys.
pub proof fn lemma_key_injective(c: GridCoord, d: GridCoord)
    requires
        c is Valid,
        d is Valid,
        coord_key(c) == coord_key(d),
    ensures
        c == d,
{
    let (x1, y1) = (c->0 as int, c->1 as int);
    let (x2, y2) = (d->0 as int, d->1 as int);
    lemma_key_range(c->0, c->1);
    lemma_key_range(d->0, d->1);
    assert(x1 == x2 && y1 == y2) by (nonlinear_arith)
        requires
            0 <= y1 + HALF < SHIFT,
            0 <= y2 + HALF < SHIFT,
            (x1 + HALF) * SHIFT + (y1 + HALF) == (x2 + HALF) * SHIFT + (y2 + HALF),
    ;
}

/// The packing fits in 128 bits, so `key_of` is the plain arithmetic value.
pub proof fn lemma_key_range(x: i64, y: i64)
    ensures
        0 <= (x + HALF) * SHIFT + (y + HALF) <= u128::MAX,
        key_of(x, y) == (x + HALF) * SHIFT + (y + HALF),
{
    let px = x + HALF;
    let py = y + HALF;
    assert(0 <= px * SHIFT + py <= u128::MAX) by (nonlinear_arith)
        requires
            0 <= px < SHIFT,
            0 <= py < SHIFT,
    ;
}

/// Computes the packed key of a valid position.
pub fn key(x: i64, y: i64) -> (r: u128)
    ensures
        r == key_of(x, y),
{
    let px = (x as i128 + HALF) as u128;
    let py = (y as i128 + HALF) as u128;
    assert(px * SHIFT + py <= u128::MAX) by (nonlinear_arith)
        requires
            px < SHIFT,
            py < SHIFT,
    ;
    px * SHIFT + py
}

} // verus!

verus! {

/// The position whose packed key is `k`.
pub open spec fn coord_of(k: u128) -> GridCoord {
    GridCoord::Valid((k / SHIFT - HALF) as i64, (k % SHIFT - HALF) as i64)
}

/// Reading a key back gives the position it was packed from, and every key is one.
pub proof fn lemma_key_round_trip(k: u128)
    ensures
        coord_of(k) is Valid,
        i64::MIN <= k / SHIFT - HALF <= i64::MAX,
        i64::MIN <= k % SHIFT - HALF <= i64::MAX,
        coord_key(coord_of(k)) == k,
{
    let q = k / SHIFT;
    let r = k % SHIFT;
    vstd::arithmetic::div_mod::lemma_fundamental_div_mod(k as int, SHIFT as int);
    assert(q < SHIFT) by (nonlinear_arith)
        requires
            k == SHIFT * q + r,
            0 <= r,
            k <= u128::MAX,
            0 <= q,
    ;
    let c = coord_of(k);
    lemma_key_range(c->0, c->1);
}

/// Reads the position back from its packed key.
pub fn unkey(k: u128) -> (r: GridCoord)
    ensures
        r == coord_of(k),
        coord_key(r) == k,
{
    proof {
        lemma_key_round_trip(k);
    }
    let q = k / SHIFT;
    let m = k % SHIFT;
    GridCoord::Valid((q as i128 - HALF) as i64, (m as i128 - HALF) as i64)
}

/// A table keyed by packed positions, seen by coordinate.
pub open spec fn by_coord<V>(m: Map<u128, V>) -> Map<GridCoord, V> {
    Map::new(
        |c: GridCoord| c is Valid && m.contains_key(coord_key(c)),
        |c: GridCoord| m[coord_key(c)],
    )
}

/// A table keyed by packed positions holds as many coordinates as keys.
pub proof fn lemma_by_coord_finite<V>(m: Map<u128, V>)
    requires
        m.dom().finite(),
    ensures
        by_coord(m).dom().finite(),
        by_coord(m).dom().len() == m.dom().len(),
{
    let f = |k: u128| coord_of(k);
    assert(m.dom().map(f) =~= by_coord(m).dom()) by {
        assert forall|c: GridCoord| #[trigger] by_coord(m).dom().contains(c) implies m.dom().map(
            f,
        ).contains(c) by {
            let k = coord_key(c);
            lemma_key_round_trip(k);
            lemma_key_injective(c, coord_of(k));
            assert(f(k) == c);
        }
        assert forall|c: GridCoord| #[trigger] m.dom().map(f).contains(c) implies by_coord(
            m,
        ).dom().contains(c) by {
            let k = choose|k: u128| m.dom().contains(k) && f(k) == c;
            lemma_key_round_trip(k);
        }
    }
    assert(vstd::relations::injective_on(f, m.dom())) by {
        assert forall|a: u128, b: u128|
            m.dom().contains(a) && m.dom().contains(b) && #[trigger] f(a) == #[trigger] f(
                b,
            ) implies a == b by {
            lemma_key_round_trip(a);
            lemma_key_round_trip(b);
        }
    }
    vstd::set_lib::lemma_map_size(m.dom(), by_coord(m).dom(), f);
}

/// Map from valid coordinates to values of type `V`.
#[derive(Debug)]
pub struct CoordMap<V> {
    entries: HashMap<u128, V>,
}

impl<V> View for CoordMap<V> {
    type V = Map<GridCoord, V>;

    closed spec fn view(&self) -> Map<GridCoord, V> {
        by_coord(self.entries@)
    }
}

impl<V> CoordMap<V> {
    /// Only valid coordinates are ever stored.
    pub proof fn lemma_valid_only(&self)
        ensures
            forall|c: GridCoord| #[trigger] self@.contains_key(c) ==> c is Valid,
    {
    }

    pub fn new() -> (r: Self)
        ensures
            r@ == Map::<GridCoord, V>::empty(),
    {
        let r = CoordMap { entries: HashMap::new() };
        assert(r@ =~= Map::<GridCoord, V>::empty());
        r
    }

    pub fn get(&self, c: &GridCoord) -> (r: Option<&V>)
        ensures
            r matches Some(v) ==> self@.contains_key(*c) && *v == self@[*c],
            r is None ==> !self@.contains_key(*c),
    {
        match c {
            GridCoord::Valid(x, y) => {
                let k = key(*x, *y);
                self.entries.get(&k)
            },
            GridCoord::OutOfBounds => None,
        }
    }

    /// Stores `v` at `c`; an off-grid position is left out.
    pub fn insert(&mut self, c: GridCoord, v: V)
        ensures
            c is Valid ==> final(self)@ == old(self)@.insert(c, v),
            c is OutOfBounds ==> final(self)@ == old(self)@,
    {
        if let GridCoord::Valid(x, y) = c {
            let k = key(x, y);
            self.entries.insert(k, v);
            proof {
                assert forall|d: GridCoord| d is Valid && coord_key(d) == k implies d == c by {
                    lemma_key_injective(c, d);
                }
                assert(self@ =~= old(self)@.insert(c, v));
            }
        }
    }

    pub fn remove(&mut self, c: &GridCoord)
        ensures
            final(self)@ == old(self)@.remove(*c),
    {
        if let GridCoord::Valid(x, y) = c {
            let k = key(*x, *y);
            self.entries.remove(&k);
            proof {
                assert forall|d: GridCoord| d is Valid && coord_key(d) == k implies d == *c by {
                    lemma_key_injective(*c, d);
                }
                assert(self@ =~= old(self)@.remove(*c));
            }
        } else {
            assert(self@ =~= old(self)@.remove(*c));
        }
    }

    pub fn len(&self) -> (r: usize)
        ensures
            self@.dom().finite(),
            r == self@.len(),
    {
        proof {
            lemma_by_coord_finite(self.entries@);
        }
        self.entries.len()
    }

    /// Every stored coordinate once, in the table's own order.
    pub fn coords(&self) -> (r: Vec<GridCoord>)
        ensures
            self@.dom().finite(),
            r@.no_duplicates(),
            r@.to_set() == self@.dom(),
            r@.len() == self@.len(),
    {
        let mut r: Vec<GridCoord> = Vec::new();
        proof {
            lemma_by_coord_finite(self.entries@);
        }
        let ghost keys = self.entries.keys().remaining().unref();
        for k in it: self.entries.keys()
            invariant
                keys == it.seq().unref(),
                keys.to_set() == self.entries@.dom(),
                keys.no_duplicates(),
                r@.len() == it.index(),
                forall|i: int| 0 <= i < it.index() ==> #[trigger] r@[i] == coord_of(keys[i]),
        {
            r.push(unkey(*k));
        }
        proof {
            assert(r@ == keys.map_values(|k: u128| coord_of(k)));
            assert forall|i: int, j: int| 0 <= i < j < r@.len() implies r@[i] != r@[j] by {
                lemma_key_round_trip(keys[i]);
                lemma_key_round_trip(keys[j]);
            }
            assert forall|c: GridCoord| r@.to_set().contains(c) <==> self@.dom().contains(c) by {
                if self@.dom().contains(c) {
                    let k = coord_key(c);
                    assert(keys.to_set().contains(k));
                    let i = choose|i: int| 0 <= i < keys.len() && keys[i] == k;
                    lemma_key_round_trip(k);
                    lemma_key_injective(c, coord_of(k));
                    assert(r@[i] == c);
                }
                if r@.to_set().contains(c) {
                    let i = choose|i: int| 0 <= i < r@.len() && r@[i] == c;
                    lemma_key_round_trip(keys[i]);
                    assert(keys.to_set().contains(keys[i]));
                }
            }
            assert(r@.to_set() =~= self@.dom());
            r@.unique_seq_to_set();
        }
        r
    }

    /// Every stored coordinate once with its value, in the table's own order.
    pub fn entries(&self) -> (r: Vec<(GridCoord, &V)>)
        ensures
            self@.dom().finite(),
            r@.len() == self@.len(),
            forall|i: int|
                #![trigger r@[i]]
                0 <= i < r@.len() ==> self@.contains_key(r@[i].0) && *r@[i].1 == self@[r@[i].0],
            forall|i: int, j: int|
                #![trigger r@[i], r@[j]]
                0 <= i < j < r@.len() ==> r@[i].0 != r@[j].0,
            forall|c: GridCoord| #[trigger]
                self@.contains_key(c) ==> exists|i: int| 0 <= i < r@.len() && r@[i].0 == c,
    {
        let mut r: Vec<(GridCoord, &V)> = Vec::new();
        proof {
            lemma_by_coord_finite(self.entries@);
        }
        let ghost items = self.entries.iter().remaining();
        for (k, v) in it: self.entries.iter()
            invariant
                items == it.seq(),
                items.len() == self.entries@.dom().len(),
                items.no_duplicates(),
                forall|i: int|
                    #![trigger items[i]]
                    0 <= i < items.len() ==> self.entries@.contains_key(*items[i].0)
                        && self.entries@[*items[i].0] == *items[i].1,
                forall|k: u128| #[trigger]
                    self.entries@.contains_key(k) ==> items.contains((&k, &self.entries@[k])),
                r@.len() == it.index(),
                forall|i: int|
                    #![trigger r@[i]]
                    0 <= i < it.index() ==> r@[i].0 == coord_of(*items[i].0) && *r@[i].1 == *items[i].1,
        {
            r.push((unkey(*k), v));
        }
        proof {
            assert forall|i: int|
                #![trigger r@[i]]
                0 <= i < r@.len() implies self@.contains_key(r@[i].0) && *r@[i].1 == self@[r@[i].0] by {
                lemma_key_round_trip(*items[i].0);
            }
            assert forall|i: int, j: int|
                #![trigger r@[i], r@[j]]
                0 <= i < j < r@.len() implies r@[i].0 != r@[j].0 by {
                lemma_key_round_trip(*items[i].0);
                lemma_key_round_trip(*items[j].0);
                if *items[i].0 == *items[j].0 {
                    assert(*items[i].1 == *items[j].1);
                    assert(items[i] == items[j]);
                }
            }
            assert forall|c: GridCoord| #[trigger]
                self@.contains_key(c) implies exists|i: int| 0 <= i < r@.len() && r@[i].0 == c by {
                let k = coord_key(c);
                assert(items.contains((&k, &self.entries@[k])));
                let i = choose|i: int| 0 <= i < items.len() && items[i] == (&k, &self.entries@[k]);
                lemma_key_round_trip(k);
                lemma_key_injective(c, coord_of(k));
                assert(r@[i].0 == c);
            }
        }
        r
    }
}

} // verus!
