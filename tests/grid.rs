use rusty_life::grid::{Cell, GridCoord, SparseGridGenerations, SparseGridOld, Universe, UniverseOld};
use std::collections::HashSet;

const V: usize = 42;
const K1: GridCoord = GridCoord::Valid(0, 0);
const K2: GridCoord = GridCoord::Valid(0, 1);
const K3: GridCoord = GridCoord::Valid(0, 2);

const K4: GridCoord = GridCoord::Valid(-1, 1);
const K5: GridCoord = GridCoord::Valid(1, 1);

#[test]
fn grid_test_adjust() {
    let k1 = K1.adjust(0, 0);
    assert_eq!(k1, K1);

    let k2 = K1.adjust(0, 1);
    assert_eq!(k2, K2);

    let k3 = K1.adjust(-1, -1);
    assert_eq!(k3, GridCoord::Valid(-1, -1));
}

#[test]
fn test_get_set_orig() {
    let mut g: SparseGridOld = SparseGridOld::new();

    assert_eq!(g.get(&K1), None);

    g.set(K1, V);

    assert_eq!(g.get(&K1), Some(V));
    assert_eq!(g.get(&K2), None);
}

#[test]
fn test_get_set_generations() {
    let mut g: SparseGridGenerations = SparseGridGenerations::new();

    assert_eq!(g.is_alive(&K1), false);

    g.set(K1);

    assert_eq!(g.is_alive(&K1), true);
    assert_eq!(g.is_alive(&K2), false);
}

#[test]
fn test_retain_orig() {
    let mut g = SparseGridOld::new();

    g.set(K1, 1);
    g.set(K2, 2);

    assert_eq!(g.get(&K1), Some(1));
    assert_eq!(g.get(&K2), Some(2));

    g.retain(|_k, v| *v > 1);

    assert_eq!(g.get(&K1), None);
    assert_eq!(g.get(&K2), Some(2));
}

#[test]
fn test_tally_orig() {
    let mut g = SparseGridOld::new();

    g.tally(&[K1, K2]);
    g.tally(&[K2]);

    assert_eq!(g.get(&K1), Some(1));
    assert_eq!(g.get(&K2), Some(2));
}

#[test]
fn test_blinker_generations() {
    let mut universe = Universe::new();

    universe.grid.set(K1);
    universe.grid.set(K2);
    universe.grid.set(K3);

    println!("Grid: {:?}", universe.grid);

    let c = universe.update();

    println!("Update: {:?}", universe.grid);

    assert_eq!(c, 3);

    assert_eq!(universe.grid.is_alive(&K1), false);
    assert_eq!(universe.grid.is_alive(&K2), true);
    assert_eq!(universe.grid.is_alive(&K3), false);
    assert_eq!(universe.grid.is_alive(&K4), true);
    assert_eq!(universe.grid.is_alive(&K5), true);
}

fn as_set(cells: Vec<GridCoord>) -> HashSet<GridCoord> {
    cells.into_iter().collect()
}

fn coords(points: &[(i64, i64)]) -> HashSet<GridCoord> {
    points.iter().map(|&(x, y)| GridCoord::Valid(x, y)).collect()
}

#[test]
fn adjust_composes() {
    let c = GridCoord::Valid(5, -7);
    assert_eq!(c.adjust(0, 0), c);
    assert_eq!(c.adjust(3, 4).adjust(-10, 2), c.adjust(-7, 6));
    assert_eq!(c.adjust(-7, 6), GridCoord::Valid(-2, -1));
}

#[test]
fn out_of_bounds_absorbs() {
    let o = GridCoord::OutOfBounds;
    assert_eq!(o.adjust(1, -1), GridCoord::OutOfBounds);
    assert_eq!(o.adjust(0, 0), GridCoord::OutOfBounds);
    assert_eq!(o.expand(), [GridCoord::OutOfBounds; 9]);
    assert_eq!(o.neighbours(), [GridCoord::OutOfBounds; 8]);
}

#[test]
fn expand_order() {
    let c = GridCoord::Valid(10, 20);
    assert_eq!(
        c.expand(),
        [
            GridCoord::Valid(9, 19),
            GridCoord::Valid(10, 19),
            GridCoord::Valid(11, 19),
            GridCoord::Valid(9, 20),
            GridCoord::Valid(10, 20),
            GridCoord::Valid(11, 20),
            GridCoord::Valid(9, 21),
            GridCoord::Valid(10, 21),
            GridCoord::Valid(11, 21),
        ]
    );
}

#[test]
fn extreme_coordinates_are_kept_apart() {
    let mut g = SparseGridOld::new();
    let a = GridCoord::Valid(i64::MIN, i64::MAX);
    let b = GridCoord::Valid(i64::MAX, i64::MIN);
    g.set(a, 1);
    g.set(b, 2);
    assert_eq!(g.get(&a), Some(1));
    assert_eq!(g.get(&b), Some(2));
    assert_eq!(g.len(), 2);
    assert_eq!(as_set(g.elements()), [a, b].into_iter().collect());
}

#[test]
fn out_of_bounds_is_never_stored() {
    let mut g = SparseGridOld::new();
    g.set(GridCoord::OutOfBounds, 1);
    assert_eq!(g.get(&GridCoord::OutOfBounds), None);
    assert_eq!(g.len(), 0);
    let mut h = SparseGridGenerations::new();
    h.set(GridCoord::OutOfBounds);
    assert!(!h.is_alive(&GridCoord::OutOfBounds));
    assert!(h.live_cells().is_empty());
}

#[test]
fn unset_removes() {
    let mut g = SparseGridOld::new();
    g.set(K1, 1);
    g.unset(K1);
    g.unset(K2);
    assert_eq!(g.get(&K1), None);
    assert!(!g.is_alive(&K1));
    let mut h = SparseGridGenerations::new();
    h.set(K1);
    h.set(K2);
    h.unset(K1);
    assert!(!h.is_alive(&K1));
    assert_eq!(as_set(h.live_cells()), coords(&[(0, 1)]));
    assert_eq!(as_set(h.live_cells_ref()), coords(&[(0, 1)]));
}

#[test]
fn tally_twice_adds_up() {
    let mut g = SparseGridOld::new();
    g.set(K3, 5);
    let cells = [K1, K2, K2, K3, GridCoord::OutOfBounds];
    g.tally(&cells);
    g.tally(&cells);
    assert_eq!(g.get(&K1), Some(2));
    assert_eq!(g.get(&K2), Some(4));
    assert_eq!(g.get(&K3), Some(7));
    assert_eq!(g.get(&GridCoord::OutOfBounds), None);
    assert_eq!(g.len(), 3);
}

#[test]
fn retain_never_adds() {
    let mut g = SparseGridOld::new();
    g.set(K1, 3);
    g.set(K2, 4);
    g.set(K3, 5);
    g.retain(|_k, v| *v != 4);
    assert_eq!(as_set(g.elements()), coords(&[(0, 0), (0, 2)]));
    g.retain(|_k, _v| true);
    assert_eq!(g.len(), 2);
    assert_eq!(g.get(&K3), Some(5));
}

#[test]
fn blinker_snapshot() {
    let mut universe = UniverseOld::new();
    universe.grid.set(K1, 1);
    universe.grid.set(K2, 1);
    universe.grid.set(K3, 1);
    assert_eq!(universe.update(), 3);
    assert_eq!(universe.generation, 1);
    assert_eq!(as_set(universe.grid.elements()), coords(&[(0, 1), (-1, 1), (1, 1)]));
    // the new grid holds each survivor's block count
    assert_eq!(universe.grid.get(&K2), Some(3));
    assert_eq!(universe.grid.get(&K4), Some(3));
    assert_eq!(universe.update(), 3);
    assert_eq!(as_set(universe.grid.elements()), coords(&[(0, 0), (0, 1), (0, 2)]));
}

#[test]
fn block_is_still_life() {
    let block = coords(&[(0, 0), (0, 1), (1, 0), (1, 1)]);
    let mut old = UniverseOld::new();
    let mut new = Universe::new();
    for c in &block {
        old.grid.set(*c, 1);
        new.grid.set(*c);
    }
    for _ in 0..10 {
        assert_eq!(old.update(), 4);
        assert_eq!(new.update(), 4);
        assert_eq!(as_set(old.grid.elements()), block);
        assert_eq!(as_set(new.grid.live_cells()), block);
    }
    assert_eq!(new.generation, 10);
}

#[test]
fn incremental_cells_carry_tallies() {
    let mut universe = Universe::new();
    universe.grid.set(K1);
    universe.update();
    // a lone cell dies; its block was tallied once each and then forgotten next step
    assert!(universe.grid.live_cells().is_empty());
    assert_eq!(universe.update(), 0);
    assert!(universe.grid.live_cells().is_empty());
    let _ = Cell { is_alive: false, generation: 0, tally: 0 };
}

fn lcg(state: &mut u64) -> u64 {
    *state = state.wrapping_mul(6364136223846793005).wrapping_add(1442695040888963407);
    *state >> 33
}

#[test]
fn engines_agree_on_random_soup() {
    let mut state: u64 = 7;
    let mut old = UniverseOld::new();
    let mut new = Universe::new();
    for x in -8..8 {
        for y in -8..8 {
            if lcg(&mut state) % 3 == 0 {
                old.grid.set(GridCoord::Valid(x, y), 1);
                new.grid.set(GridCoord::Valid(x, y));
            }
        }
    }
    for _ in 0..100 {
        let a = old.update();
        let b = new.update();
        assert_eq!(a, b);
        assert_eq!(as_set(old.grid.elements()), as_set(new.grid.live_cells()));
    }
}

#[test]
fn glider_moves() {
    let glider = coords(&[(1, 0), (2, 1), (0, 2), (1, 2), (2, 2)]);
    let mut universe = Universe::new();
    for c in &glider {
        universe.grid.set(*c);
    }
    for _ in 0..4 {
        universe.update();
    }
    let moved: HashSet<GridCoord> = glider.iter().map(|c| c.adjust(1, 1)).collect();
    assert_eq!(as_set(universe.grid.live_cells()), moved);
}

#[test]
fn random_seed_stays_in_its_rectangle() {
    let mut universe = Universe::new();
    universe.grid.set(GridCoord::Valid(100, 100));
    universe.grid.seed_rand(-5, 10, 20, 30);
    let cells = universe.grid.live_cells();
    assert!(cells.len() <= 20 * 30 + 1);
    assert!(cells.len() > 1, "600 fair coins all came up tails");
    for c in &cells {
        match *c {
            GridCoord::Valid(100, 100) => {}
            GridCoord::Valid(x, y) => assert!((-5..15).contains(&x) && (10..40).contains(&y)),
            GridCoord::OutOfBounds => panic!("off-grid cell"),
        }
    }
    assert!(universe.grid.is_alive(&GridCoord::Valid(100, 100)));
    assert!(universe.can_update());
    universe.update();
}

#[test]
fn update_readiness() {
    let mut universe = Universe::new();
    assert!(universe.can_update());
    universe.grid.set(GridCoord::Valid(i64::MAX, 0));
    assert!(!universe.can_update());
    universe.grid.unset(GridCoord::Valid(i64::MAX, 0));
    universe.grid.set(GridCoord::Valid(i64::MAX - 1, i64::MIN + 1));
    assert!(universe.can_update());
    universe.generation = usize::MAX;
    assert!(!universe.can_update());
}

#[test]
fn seed_block_follows_the_coins() {
    let mut grid = SparseGridGenerations::new();
    grid.set(GridCoord::Valid(1, 1));
    // a 2x3 rectangle at (1, 0), column by column
    let coins = vec![true, false, false, false, true, true];
    grid.seed_block(1, 0, 2, 3, &coins);
    assert_eq!(
        as_set(grid.live_cells()),
        coords(&[(1, 0), (1, 1), (2, 1), (2, 2)])
    );
}
