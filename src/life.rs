//! The mathematics of the simulation: Conway's rule on sets of coordinates,
//! the tallies both engines build, the states the incremental engine passes
//! through, and the laws that tie the two engines together.
use vstd::prelude::*;

use crate::grid::{block, interior, shifted, Cell, GridCoord};

verus! {

/// One if the cell at `(x, y)` exists on the 64-bit grid and is in `s`.
pub open spec fn occupied(s: Set<GridCoord>, x: int, y: int) -> int {
    if i64::MIN <= x <= i64::MAX && i64::MIN <= y <= i64::MAX && s.contains(
        GridCoord::Valid(x as i64, y as i64),
    ) {
        1
    } else {
        0
    }
}

/// Number of members of `s` in the 3x3 block centred on `(x, y)`, the centre included.
pub open spec fn block_count_at(s: Set<GridCoord>, x: int, y: int) -> int {
    occupied(s, x - 1, y - 1) + occupied(s, x, y - 1) + occupied(s, x + 1, y - 1)
        + occupied(s, x - 1, y) + occupied(s, x, y) + occupied(s, x + 1, y)
        + occupied(s, x - 1, y + 1) + occupied(s, x, y + 1) + occupied(s, x + 1, y + 1)
}

/// Number of members of `s` in the block around `c`; zero for `OutOfBounds`.
pub open spec fn block_count(s: Set<GridCoord>, c: GridCoord) -> int {
    match c {
        GridCoord::Valid(x, y) => block_count_at(s, x as int, y as int),
        GridCoord::OutOfBounds => 0,
    }
}

/// Number of members of `s` among the eight neighbours of `c`.
pub open spec fn neighbour_count(s: Set<GridCoord>, c: GridCoord) -> int {
    match c {
        GridCoord::Valid(x, y) => block_count_at(s, x as int, y as int) - occupied(
            s,
            x as int,
            y as int,
        ),
        GridCoord::OutOfBounds => 0,
    }
}

/// Conway's rule in block form: a cell lives next generation when its block
/// holds exactly three live cells, or four with the cell itself among them.
pub open spec fn survives(s: Set<GridCoord>, c: GridCoord) -> bool {
    &&& c is Valid
    &&& (block_count(s, c) == 3 || (block_count(s, c) == 4 && s.contains(c)))
}

/// The live cells one generation after `s`.
pub open spec fn life_step(s: Set<GridCoord>) -> Set<GridCoord> {
    Set::new(|c: GridCoord| survives(s, c))
}

} // verus!

verus! {

/// The stored count at `c`, zero where nothing is stored.
pub open spec fn count_of(m: Map<GridCoord, usize>, c: GridCoord) -> int {
    if m.contains_key(c) {
        m[c] as int
    } else {
        0
    }
}

/// How many times `c` occurs in `s`.
pub open spec fn occurrences(s: Seq<GridCoord>, c: GridCoord) -> nat
    decreases s.len(),
{
    if s.len() == 0 {
        0
    } else {
        occurrences(s.drop_last(), c) + if s.last() == c {
            1nat
        } else {
            0nat
        }
    }
}

/// `m` after one vote for each valid coordinate of `cells`, occurrence by occurrence.
pub open spec fn tallied(m: Map<GridCoord, usize>, cells: Seq<GridCoord>) -> Map<GridCoord, usize> {
    Map::new(
        |c: GridCoord| m.contains_key(c) || (c is Valid && cells.contains(c)),
        |c: GridCoord| (count_of(m, c) + occurrences(cells, c)) as usize,
    )
}

/// Tallying `cells` into `m` overflows no count.
pub open spec fn tally_fits(m: Map<GridCoord, usize>, cells: Seq<GridCoord>) -> bool {
    forall|c: GridCoord| count_of(m, c) + #[trigger] occurrences(cells, c) <= usize::MAX
}

/// The votes of the live cells `s`: each coordinate near a live cell, with its block count.
pub open spec fn votes(s: Set<GridCoord>) -> Map<GridCoord, usize> {
    Map::new(
        |c: GridCoord| c is Valid && block_count(s, c) > 0,
        |c: GridCoord| block_count(s, c) as usize,
    )
}

/// The votes that survive Conway's rule: the snapshot engine's next grid.
pub open spec fn surviving_votes(s: Set<GridCoord>) -> Map<GridCoord, usize> {
    Map::new(|c: GridCoord| survives(s, c), |c: GridCoord| block_count(s, c) as usize)
}

/// Appending `d` adds one occurrence of `d` and none of anything else.
pub proof fn lemma_occurrences_push(s: Seq<GridCoord>, d: GridCoord, c: GridCoord)
    ensures
        occurrences(s.push(d), c) == occurrences(s, c) + if d == c {
            1nat
        } else {
            0nat
        },
{
    assert(s.push(d).drop_last() =~= s);
}

/// A prefix holds no more occurrences than the whole sequence.
pub proof fn lemma_occurrences_prefix(s: Seq<GridCoord>, i: int, c: GridCoord)
    requires
        0 <= i <= s.len(),
    ensures
        occurrences(s.take(i), c) <= occurrences(s, c),
    decreases s.len() - i,
{
    if i < s.len() {
        lemma_occurrences_prefix(s, i + 1, c);
        assert(s.take(i + 1) =~= s.take(i).push(s[i]));
        lemma_occurrences_push(s.take(i), s[i], c);
    } else {
        assert(s.take(i) =~= s);
    }
}

/// A coordinate occurs in a sequence exactly when the sequence contains it.
pub proof fn lemma_occurrences_contains(s: Seq<GridCoord>, c: GridCoord)
    ensures
        s.contains(c) <==> occurrences(s, c) > 0,
    decreases s.len(),
{
    if s.len() > 0 {
        lemma_occurrences_contains(s.drop_last(), c);
        if s.drop_last().contains(c) {
            let i = choose|i: int| 0 <= i < s.drop_last().len() && s.drop_last()[i] == c;
            assert(s[i] == c);
        }
        if s.contains(c) && s.last() != c {
            let i = choose|i: int| 0 <= i < s.len() && s[i] == c;
            assert(s.drop_last()[i] == c);
        }
    }
}

/// A block holds at most nine cells.
pub proof fn lemma_block_count_bounds(s: Set<GridCoord>, c: GridCoord)
    ensures
        0 <= block_count(s, c) <= 9,
{
}

/// Adding a cell `p` raises the block count of exactly the nine positions around it.
pub proof fn lemma_block_count_insert(s: Set<GridCoord>, p: GridCoord, c: GridCoord)
    requires
        p is Valid,
        !s.contains(p),
        c is Valid,
    ensures
        block_count(s.insert(p), c) == block_count(s, c) + if near(p, c) {
            1int
        } else {
            0int
        },
{
}

/// `c` lies in the 3x3 block around `p`.
pub open spec fn near(p: GridCoord, c: GridCoord) -> bool {
    match (p, c) {
        (GridCoord::Valid(px, py), GridCoord::Valid(x, y)) => -1 <= x - px <= 1 && -1 <= y - py
            <= 1,
        _ => false,
    }
}

} // verus!

verus! {

/// The block around an interior cell holds each nearby position once, and nothing else.
pub proof fn lemma_block_occurrences(p: GridCoord, c: GridCoord)
    requires
        p is Valid,
        interior(p),
    ensures
        occurrences(block(p), c) == if c is Valid && near(p, c) {
            1nat
        } else {
            0nat
        },
        block(p).contains(c) <==> (c is Valid && near(p, c)),
{
    reveal_with_fuel(occurrences, 10);
    lemma_occurrences_contains(block(p), c);
}

} // verus!

verus! {

/// Tallying the block of one more live cell into the votes of `s` gives the
/// votes of `s` with that cell.
pub proof fn lemma_vote_step(s: Set<GridCoord>, p: GridCoord)
    requires
        p is Valid,
        interior(p),
        !s.contains(p),
    ensures
        tally_fits(votes(s), block(p)),
        tallied(votes(s), block(p)) == votes(s.insert(p)),
{
    assert forall|d: GridCoord| count_of(votes(s), d) + #[trigger] occurrences(block(p), d)
        <= usize::MAX by {
        lemma_block_occurrences(p, d);
        lemma_block_count_bounds(s, d);
    }
    let t = tallied(votes(s), block(p));
    let v = votes(s.insert(p));
    assert forall|d: GridCoord| #[trigger] t.contains_key(d) == v.contains_key(d) && (
    t.contains_key(d) ==> t[d] == v[d]) by {
        lemma_block_occurrences(p, d);
        lemma_block_count_bounds(s, d);
        lemma_block_count_bounds(s.insert(p), d);
        if d is Valid {
            lemma_block_count_insert(s, p, d);
        }
    }
    assert(t =~= v);
}

} // verus!

verus! {

/// The live cells of an incremental grid: the entries flagged alive.
pub open spec fn live_set(m: Map<GridCoord, Cell>) -> Set<GridCoord> {
    Set::new(|c: GridCoord| m.contains_key(c) && m[c].is_alive)
}

/// The count that a vote at generation `g` adds to: the stored tally if the
/// entry was already touched at `g` or later, else nothing.
pub open spec fn current_tally(m: Map<GridCoord, Cell>, g: usize, c: GridCoord) -> int {
    if m.contains_key(c) && m[c].generation >= g {
        m[c].tally as int
    } else {
        0
    }
}

/// `m` after one vote at generation `g` for each valid coordinate of `cells`:
/// an entry older than `g` restarts its tally, a missing one starts dead.
pub open spec fn gen_tallied(m: Map<GridCoord, Cell>, g: usize, cells: Seq<GridCoord>) -> Map<
    GridCoord,
    Cell,
> {
    Map::new(
        |c: GridCoord| m.contains_key(c) || (c is Valid && cells.contains(c)),
        |c: GridCoord|
            if c is Valid && cells.contains(c) {
                Cell {
                    is_alive: m.contains_key(c) && m[c].is_alive,
                    generation: if m.contains_key(c) && m[c].generation > g {
                        m[c].generation
                    } else {
                        g
                    },
                    tally: (current_tally(m, g, c) + occurrences(cells, c)) as usize,
                }
            } else {
                m[c]
            },
    )
}

/// Tallying `cells` at generation `g` overflows no count.
pub open spec fn gen_tally_fits(m: Map<GridCoord, Cell>, g: usize, cells: Seq<GridCoord>) -> bool {
    forall|c: GridCoord| current_tally(m, g, c) + #[trigger] occurrences(cells, c) <= usize::MAX
}

/// `m` after closing generation `g`: the entries touched at `g` take Conway's
/// rule on their tally, every other entry is dropped.
pub open spec fn finalised(m: Map<GridCoord, Cell>, g: usize) -> Map<GridCoord, Cell> {
    Map::new(
        |c: GridCoord| m.contains_key(c) && m[c].generation == g,
        |c: GridCoord|
            Cell {
                is_alive: m[c].tally == 3 || (m[c].tally == 4 && m[c].is_alive),
                ..m[c]
            },
    )
}

/// The incremental grid after generation `g` from the live cells `s`: one entry
/// per position near a live cell, stamped `g`, holding its block count and fate.
pub open spec fn touched(s: Set<GridCoord>, g: usize) -> Map<GridCoord, Cell> {
    Map::new(
        |c: GridCoord| c is Valid && block_count(s, c) > 0,
        |c: GridCoord|
            Cell {
                is_alive: survives(s, c),
                generation: g,
                tally: block_count(s, c) as usize,
            },
    )
}

/// The incremental grid part way through generation `g`: the blocks of the
/// live cells `p` are tallied into the grid `m` as it stood before.
pub open spec fn staged(m: Map<GridCoord, Cell>, g: usize, p: Set<GridCoord>) -> Map<
    GridCoord,
    Cell,
> {
    Map::new(
        |c: GridCoord| m.contains_key(c) || (c is Valid && block_count(p, c) > 0),
        |c: GridCoord|
            if c is Valid && block_count(p, c) > 0 {
                Cell {
                    is_alive: m.contains_key(c) && m[c].is_alive,
                    generation: g,
                    tally: block_count(p, c) as usize,
                }
            } else {
                m[c]
            },
    )
}

/// Every entry of `m` is older than `g`.
pub open spec fn older_than(m: Map<GridCoord, Cell>, g: usize) -> bool {
    forall|c: GridCoord| #[trigger] m.contains_key(c) ==> m[c].generation < g
}

/// Tallying the block of one more live cell advances the staged grid by that cell.
pub proof fn lemma_staged_step(m: Map<GridCoord, Cell>, g: usize, s: Set<GridCoord>, p: GridCoord)
    requires
        older_than(m, g),
        p is Valid,
        interior(p),
        !s.contains(p),
    ensures
        gen_tally_fits(staged(m, g, s), g, block(p)),
        gen_tallied(staged(m, g, s), g, block(p)) == staged(m, g, s.insert(p)),
{
    let st = staged(m, g, s);
    assert forall|d: GridCoord| current_tally(st, g, d) + #[trigger] occurrences(block(p), d)
        <= usize::MAX by {
        lemma_block_occurrences(p, d);
        lemma_block_count_bounds(s, d);
    }
    let t = gen_tallied(st, g, block(p));
    let v = staged(m, g, s.insert(p));
    assert forall|d: GridCoord| #[trigger] t.contains_key(d) == v.contains_key(d) && (
    t.contains_key(d) ==> t[d] == v[d]) by {
        lemma_block_occurrences(p, d);
        lemma_block_count_bounds(s, d);
        lemma_block_count_bounds(s.insert(p), d);
        if d is Valid {
            lemma_block_count_insert(s, p, d);
        }
    }
    assert(t =~= v);
}

/// Closing generation `g` on the fully staged grid leaves the touched positions.
pub proof fn lemma_finalise_staged(m: Map<GridCoord, Cell>, g: usize)
    requires
        older_than(m, g),
    ensures
        finalised(staged(m, g, live_set(m)), g) == touched(live_set(m), g),
{
    let s = live_set(m);
    let f = finalised(staged(m, g, s), g);
    let t = touched(s, g);
    assert forall|d: GridCoord| #[trigger] f.contains_key(d) == t.contains_key(d) && (
    f.contains_key(d) ==> f[d] == t[d]) by {
        lemma_block_count_bounds(s, d);
    }
    assert(f =~= t);
}

} // verus!

verus! {

/// The live cells after `n` generations of the snapshot engine from `s`.
pub open spec fn snapshot_run(s: Set<GridCoord>, n: nat) -> Set<GridCoord>
    decreases n,
{
    if n == 0 {
        s
    } else {
        surviving_votes(snapshot_run(s, (n - 1) as nat)).dom()
    }
}

/// The live cells after `n` generations of the incremental engine from `s`,
/// the first of them numbered `g + 1`.
pub open spec fn incremental_run(s: Set<GridCoord>, g: usize, n: nat) -> Set<GridCoord>
    decreases n,
{
    if n == 0 {
        s
    } else {
        live_set(touched(incremental_run(s, g, (n - 1) as nat), (g + n) as usize))
    }
}

/// Every member of `s` is a valid coordinate at most `r` away from the origin on each axis.
pub open spec fn within(s: Set<GridCoord>, r: int) -> bool {
    forall|c: GridCoord| #[trigger]
        s.contains(c) ==> match c {
            GridCoord::Valid(x, y) => -r <= x <= r && -r <= y <= r,
            GridCoord::OutOfBounds => false,
        }
}

/// Both engines keep exactly the cells that Conway's rule keeps.
pub proof fn lemma_steps_follow_rule(s: Set<GridCoord>, g: usize)
    ensures
        surviving_votes(s).dom() == life_step(s),
        live_set(touched(s, g)) == life_step(s),
{
    assert(surviving_votes(s).dom() =~= life_step(s));
    assert forall|c: GridCoord| live_set(touched(s, g)).contains(c) <==> life_step(s).contains(c) by {
        lemma_block_count_bounds(s, c);
    }
    assert(live_set(touched(s, g)) =~= life_step(s));
}

/// A generation spreads a population by at most one position on each axis,
/// and keeps a finite population finite.
pub proof fn lemma_step_spread(s: Set<GridCoord>, r: int)
    requires
        within(s, r),
        0 <= r < i64::MAX,
    ensures
        within(life_step(s), r + 1),
        s.finite() ==> life_step(s).finite(),
{
    let bound = Set::new(
        |c: GridCoord|
            c is Valid && exists|d: GridCoord| s.contains(d) && #[trigger] near(d, c),
    );
    assert forall|c: GridCoord| #[trigger] life_step(s).contains(c) implies bound.contains(c) && match c {
        GridCoord::Valid(x, y) => -(r + 1) <= x <= r + 1 && -(r + 1) <= y <= r + 1,
        GridCoord::OutOfBounds => false,
    } by {
        let (x, y) = (c->0 as int, c->1 as int);
        let d = if occupied(s, x - 1, y - 1) == 1 {
            GridCoord::Valid((x - 1) as i64, (y - 1) as i64)
        } else if occupied(s, x, y - 1) == 1 {
            GridCoord::Valid(x as i64, (y - 1) as i64)
        } else if occupied(s, x + 1, y - 1) == 1 {
            GridCoord::Valid((x + 1) as i64, (y - 1) as i64)
        } else if occupied(s, x - 1, y) == 1 {
            GridCoord::Valid((x - 1) as i64, y as i64)
        } else if occupied(s, x, y) == 1 {
            GridCoord::Valid(x as i64, y as i64)
        } else if occupied(s, x + 1, y) == 1 {
            GridCoord::Valid((x + 1) as i64, y as i64)
        } else if occupied(s, x - 1, y + 1) == 1 {
            GridCoord::Valid((x - 1) as i64, (y + 1) as i64)
        } else if occupied(s, x, y + 1) == 1 {
            GridCoord::Valid(x as i64, (y + 1) as i64)
        } else {
            GridCoord::Valid((x + 1) as i64, (y + 1) as i64)
        };
        assert(s.contains(d));
        assert(near(d, c));
    }
    if s.finite() {
        let u = s.map(|d: GridCoord| shifted(d, -1, -1)).union(s.map(|d: GridCoord| shifted(d, 0, -1))).union(
            s.map(|d: GridCoord| shifted(d, 1, -1)),
        ).union(s.map(|d: GridCoord| shifted(d, -1, 0))).union(s).union(
            s.map(|d: GridCoord| shifted(d, 1, 0)),
        ).union(s.map(|d: GridCoord| shifted(d, -1, 1))).union(
            s.map(|d: GridCoord| shifted(d, 0, 1)),
        ).union(s.map(|d: GridCoord| shifted(d, 1, 1)));
        s.lemma_map_finite(|d: GridCoord| shifted(d, -1, -1));
        s.lemma_map_finite(|d: GridCoord| shifted(d, 0, -1));
        s.lemma_map_finite(|d: GridCoord| shifted(d, 1, -1));
        s.lemma_map_finite(|d: GridCoord| shifted(d, -1, 0));
        s.lemma_map_finite(|d: GridCoord| shifted(d, 1, 0));
        s.lemma_map_finite(|d: GridCoord| shifted(d, -1, 1));
        s.lemma_map_finite(|d: GridCoord| shifted(d, 0, 1));
        s.lemma_map_finite(|d: GridCoord| shifted(d, 1, 1));
        assert forall|c: GridCoord| #[trigger] life_step(s).contains(c) implies u.contains(c) by {
            assert(bound.contains(c));
            let d = choose|d: GridCoord| s.contains(d) && #[trigger] near(d, c);
            let (dx, dy) = (c->0 - d->0, c->1 - d->1);
            assert(c == shifted(d, dx, dy));
        }
        vstd::set_lib::lemma_len_subset(life_step(s), u);
    }
}

/// The two engines agree: from any finite seed of valid cells, kept off the
/// edge of the 64-bit grid by the number of generations run (at most 100),
/// they keep the same live cells after every generation, so each step also
/// returns the same count of cells alive before it; and every population met
/// on the way stays finite and off the edge, so each of those steps may be taken.
pub proof fn lemma_engines_agree(seed: Set<GridCoord>, g: usize, n: nat)
    requires
        seed.finite(),
        g + n <= usize::MAX,
        within(seed, i64::MAX - 1 - n),
        n <= 100,
    ensures
        forall|k: nat|
            k <= n ==> #[trigger] snapshot_run(seed, k) == incremental_run(seed, g, k),
        forall|k: nat| k <= n ==> #[trigger] snapshot_run(seed, k).len() == incremental_run(seed, g, k).len(),
        forall|k: nat| k <= n ==> #[trigger] snapshot_run(seed, k).finite(),
        forall|k: nat, c: GridCoord|
            k <= n && #[trigger] snapshot_run(seed, k).contains(c) ==> c is Valid && interior(c),
    decreases n,
{
    if n > 0 {
        let m = (n - 1) as nat;
        assert(within(seed, i64::MAX - 1 - m)) by {
            assert forall|c: GridCoord| #[trigger] seed.contains(c) implies match c {
                GridCoord::Valid(x, y) => -(i64::MAX - 1 - m) <= x <= i64::MAX - 1 - m && -(i64::MAX
                    - 1 - m) <= y <= i64::MAX - 1 - m,
                GridCoord::OutOfBounds => false,
            } by {}
        }
        lemma_engines_agree(seed, g, m);
        lemma_run_bound(seed, i64::MAX - 1 - n, m);
        lemma_steps_follow_rule(snapshot_run(seed, m), (g + n) as usize);
        lemma_step_spread(snapshot_run(seed, m), i64::MAX - 1 - n + m);
        assert(snapshot_run(seed, n) == incremental_run(seed, g, n));
        assert forall|k: nat, c: GridCoord|
            k <= n && #[trigger] snapshot_run(seed, k).contains(c) implies c is Valid && interior(c) by {
            if k == n {
                assert(within(snapshot_run(seed, n), i64::MAX - 1 - n + m + 1));
            }
        }
    } else {
        assert forall|c: GridCoord| #[trigger] seed.contains(c) implies c is Valid && interior(c) by {}
    }
}

/// After `k` generations from a seed within `r`, the population lies within `r + k`.
pub proof fn lemma_run_bound(seed: Set<GridCoord>, r: int, k: nat)
    requires
        within(seed, r),
        0 <= r,
        r + k < i64::MAX,
    ensures
        within(snapshot_run(seed, k), r + k),
    decreases k,
{
    if k > 0 {
        let m = (k - 1) as nat;
        lemma_run_bound(seed, r, m);
        lemma_steps_follow_rule(snapshot_run(seed, m), 0);
        lemma_step_spread(snapshot_run(seed, m), r + m);
    }
}

} // verus!

verus! {

/// Tallying accumulates: tallying the same coordinates twice adds their
/// occurrences twice to every count and resets none. An entry exists
/// afterwards exactly where one existed before or a valid coordinate was
/// tallied, and every other entry is left as it was.
pub proof fn lemma_tally_twice(m: Map<GridCoord, usize>, cells: Seq<GridCoord>)
    requires
        tally_fits(m, cells),
        tally_fits(tallied(m, cells), cells),
    ensures
        tallied(tallied(m, cells), cells) == Map::new(
            |c: GridCoord| m.contains_key(c) || (c is Valid && cells.contains(c)),
            |c: GridCoord| (count_of(m, c) + 2 * occurrences(cells, c)) as usize,
        ),
        forall|c: GridCoord|
            #![trigger m.contains_key(c)]
            m.contains_key(c) && occurrences(cells, c) == 0 ==> tallied(tallied(m, cells), cells)[c]
                == m[c],
{
    let t = tallied(tallied(m, cells), cells);
    let e = Map::new(
        |c: GridCoord| m.contains_key(c) || (c is Valid && cells.contains(c)),
        |c: GridCoord| (count_of(m, c) + 2 * occurrences(cells, c)) as usize,
    );
    assert forall|c: GridCoord| #[trigger] t.contains_key(c) == e.contains_key(c) && (t.contains_key(c)
        ==> t[c] == e[c]) by {
        lemma_occurrences_contains(cells, c);
    }
    assert(t =~= e);
}

/// Tallying the same coordinates twice at one generation accumulates: each
/// tallied entry ends with its first-round tally plus the occurrences again,
/// with the same stamp and the same liveness.
pub proof fn lemma_gen_tally_twice(m: Map<GridCoord, Cell>, g: usize, cells: Seq<GridCoord>)
    requires
        gen_tally_fits(m, g, cells),
        gen_tally_fits(gen_tallied(m, g, cells), g, cells),
    ensures
        forall|c: GridCoord|
            #![trigger gen_tallied(gen_tallied(m, g, cells), g, cells)[c]]
            c is Valid && cells.contains(c) ==> {
                let once = gen_tallied(m, g, cells);
                let twice = gen_tallied(once, g, cells);
                &&& twice.contains_key(c)
                &&& twice[c].tally == once[c].tally + occurrences(cells, c)
                &&& twice[c].generation == once[c].generation
                &&& twice[c].is_alive == once[c].is_alive
            },
{
}

/// The block: the 2x2 square with `(x, y)` as its top-left cell.
pub open spec fn square(x: i64, y: i64) -> Set<GridCoord> {
    set![
        GridCoord::Valid(x, y),
        GridCoord::Valid((x + 1) as i64, y),
        GridCoord::Valid(x, (y + 1) as i64),
        GridCoord::Valid((x + 1) as i64, (y + 1) as i64),
    ]
}

/// The block is still life: a generation of either engine, numbered `g` for
/// the incremental one, leaves its four cells alive and brings no other cell
/// to life.
pub proof fn lemma_square_is_still(x: i64, y: i64, g: usize)
    requires
        x < i64::MAX,
        y < i64::MAX,
    ensures
        life_step(square(x, y)) == square(x, y),
        surviving_votes(square(x, y)).dom() == square(x, y),
        live_set(touched(square(x, y), g)) == square(x, y),
{
    lemma_steps_follow_rule(square(x, y), g);
    let s = square(x, y);
    assert forall|c: GridCoord| life_step(s).contains(c) <==> s.contains(c) by {
        if let GridCoord::Valid(cx, cy) = c {
            let (dx, dy) = (cx - x, cy - y);
            if -1 <= dx <= 2 && -1 <= dy <= 2 {
                assert(block_count(s, c) == if 0 <= dx <= 1 && 0 <= dy <= 1 {
                    4int
                } else if (dx == -1 || dx == 2) && (dy == -1 || dy == 2) {
                    1int
                } else {
                    2int
                });
            } else {
                assert(block_count(s, c) == 0);
            }
        }
    }
    assert(life_step(s) =~= s);
}

} // verus!
