use rusty_life::grid::GridCoord;
use rusty_life::model::SparseGrid;

const V: usize = 42;
const K1: GridCoord = GridCoord::Valid(0, 0);
const K2: GridCoord = GridCoord::Valid(0, 1);

#[test]
fn model_test_adjust() {
    let k1 = K1.adjust(0, 0);
    assert_eq!(k1, K1);

    let k2 = K1.adjust(0, 1);
    assert_eq!(k2, K2);

    let k3 = K1.adjust(-1, -1);
    assert_eq!(k3, GridCoord::Valid(-1, -1));
}

#[test]
fn test_get_set_count() {
    let mut g: SparseGrid<usize> = SparseGrid::new();

    assert_eq!(g.get(K1), None);
    assert_eq!(g.count(K1), 0);

    g.set(K1, V);

    assert_eq!(g.get(K1), Some(V));
    assert_eq!(g.get(K2), None);
    assert_eq!(g.count(K1), 1);
    assert_eq!(g.count(K2), 0);

    assert_eq!(g.count(GridCoord::OutOfBounds), 0);
}

#[test]
fn test_neighbours() {
    let mut g: SparseGrid<usize> = SparseGrid::new();

    assert_eq!(g.count_neighbours(K1), 0);

    g.set(K1, V);

    assert_eq!(g.count_neighbours(K1), 0);
    assert_eq!(g.count_neighbours(K2), 1);

    assert_eq!(g.count_neighbours(GridCoord::OutOfBounds), 0);
}

#[test]
fn neighbours_of_a_full_ring() {
    let mut g: SparseGrid<bool> = SparseGrid::new();
    for c in K1.neighbours() {
        g.set(c, true);
    }
    g.set(K1, true);
    assert_eq!(g.count_neighbours(K1), 8);
    assert_eq!(g.count_neighbours(GridCoord::Valid(2, 2)), 1);
    g.unset(GridCoord::Valid(1, 1));
    assert_eq!(g.count_neighbours(K1), 7);
    assert_eq!(g.count_neighbours(GridCoord::Valid(2, 2)), 0);
    assert_eq!(g.get(GridCoord::Valid(1, 1)), None);
}
