use vstd::prelude::*;
use crate::grid::{is_grid, with_cell, lemma_with_cell_keeps_shape};
use crate::flood::{Flood, in_layer, reached, adjacent, cell_key, lemma_layer_reached, lemma_reached_layer, lemma_layers_disjoint, lemma_open_neighbour, lemma_layer_has_parent, lemma_cell_key, lemma_key_cell};

verus! {

// A flood is computed in waves over a grid whose cells it overwrites. Wave
// `w` walks its frontier, a map from cell keys to the distance `dist(w)`:
// each frontier cell takes that distance, and each of its open neighbours
// enters the next frontier. The specifications below describe the state of
// such a walk, whatever the distances (`dist`) and cell values.

/// The shape of the flood's grid fits the keys of its cells.
pub open spec fn wave_dims<T>(f: Flood<T>) -> bool {
    &&& f.width >= 0
    &&& f.height >= 0
    &&& is_grid(f.cells, f.width, f.height)
    &&& f.width * f.height <= usize::MAX
}

/// No distance up to wave `w` is the open value.
pub open spec fn dist_not_open<T>(f: Flood<T>, dist: spec_fn(nat) -> T, w: nat) -> bool {
    forall|k: nat| k <= w ==> #[trigger] dist(k) != f.open
}

/// The grid `cur` at the start of wave `w`: a cell of an earlier layer `k`
/// holds `dist(k)` or `dist(k + 1)` (exactly `dist(k)` when it did not start
/// open), a cell of no earlier layer holds its first value.
pub open spec fn wave_grid<T>(f: Flood<T>, cur: Seq<Seq<T>>, w: nat, dist: spec_fn(nat) -> T) -> bool {
    &&& is_grid(cur, f.width, f.height)
    &&& forall|i: int, j: int, k: nat| k < w && #[trigger] in_layer(f, k, i, j) ==> cur[i][j] == dist(k) || cur[i][j] == dist(k + 1)
    &&& forall|i: int, j: int, k: nat| k < w && #[trigger] in_layer(f, k, i, j) && f.cells[i][j] != f.open ==> cur[i][j] == dist(k)
    &&& forall|i: int, j: int| 0 <= i < f.width && 0 <= j < f.height && !(w > 0 && reached(f, (w - 1) as nat, i, j))
        ==> #[trigger] cur[i][j] == f.cells[i][j]
}

/// The frontier of wave `w`: cells of layer `w`, and possibly open cells of
/// layer `w - 1`, each at distance `dist(w)`; every cell of layer `w` is there.
pub open spec fn wave_frontier<T>(f: Flood<T>, m: Map<usize, T>, w: nat, dist: spec_fn(nat) -> T) -> bool {
    &&& forall|k: usize| #[trigger] m.contains_key(k) ==> {
        &&& k < f.width * f.height
        &&& (in_layer(f, w, k as int / f.height, k as int % f.height)
            || (w > 0 && in_layer(f, (w - 1) as nat, k as int / f.height, k as int % f.height)
                && f.cells[k as int / f.height][k as int % f.height] == f.open))
        &&& m[k] == dist(w)
    }
    &&& forall|i: int, j: int| #[trigger] in_layer(f, w, i, j) ==> m.contains_key(cell_key(i, j, f.height) as usize)
}

/// During a wave: each cell is at the wave's distance once processed (its
/// key in `done`), and as at the wave's start otherwise.
pub open spec fn grid_during_wave<T>(f: Flood<T>, cur: Seq<Seq<T>>, gw: Seq<Seq<T>>, done: Set<usize>, w: nat, dist: spec_fn(nat) -> T) -> bool {
    &&& is_grid(cur, f.width, f.height)
    &&& forall|i: int, j: int| 0 <= i < f.width && 0 <= j < f.height ==> #[trigger] cur[i][j]
        == if done.contains(cell_key(i, j, f.height) as usize) { dist(w) } else { gw[i][j] }
}

/// The next frontier during wave `w`: cells of layer `w + 1`, or open cells
/// of layer `w`, each at distance `dist(w + 1)`.
pub open spec fn future_ok<T>(f: Flood<T>, m: Map<usize, T>, w: nat, dist: spec_fn(nat) -> T) -> bool {
    forall|k: usize| #[trigger] m.contains_key(k) ==> {
        &&& k < f.width * f.height
        &&& (in_layer(f, w + 1, k as int / f.height, k as int % f.height)
            || (in_layer(f, w, k as int / f.height, k as int % f.height) && f.cells[k as int / f.height][k as int % f.height] == f.open))
        &&& m[k] == dist(w + 1)
    }
}

/// Every cell of layer `w + 1` next to a processed cell of layer `w` is in
/// the next frontier.
pub open spec fn children_ok<T, V>(f: Flood<T>, m: Map<usize, V>, done: Set<usize>, w: nat) -> bool {
    forall|i: int, j: int, pi: int, pj: int|
        #[trigger] in_layer(f, w + 1, i, j) && #[trigger] in_layer(f, w, pi, pj) && adjacent(pi, pj, i, j)
        && done.contains(cell_key(pi, pj, f.height) as usize)
        ==> m.contains_key(cell_key(i, j, f.height) as usize)
}

/// Processed cells are frontier cells.
pub open spec fn done_ok<V>(current: Map<usize, V>, done: Set<usize>) -> bool {
    forall|k: usize| #[trigger] done.contains(k) ==> current.contains_key(k)
}

/// The state of wave `w` after the cells in `done` have been processed.
pub open spec fn wave_state<T>(
    f: Flood<T>,
    w: nat,
    gw: Seq<Seq<T>>,
    current: Map<usize, T>,
    done: Set<usize>,
    cur: Seq<Seq<T>>,
    future: Map<usize, T>,
    dist: spec_fn(nat) -> T,
) -> bool {
    &&& wave_grid(f, gw, w, dist)
    &&& wave_frontier(f, current, w, dist)
    &&& done_ok(current, done)
    &&& grid_during_wave(f, cur, gw, done, w, dist)
    &&& future_ok(f, future, w, dist)
    &&& children_ok(f, future, done, w)
}

/// A frontier cell lies in the grid, under its own key, in layer `w` or
/// open in layer `w - 1`, at distance `dist(w)`.
pub proof fn lemma_frontier_cell<T>(f: Flood<T>, current: Map<usize, T>, w: nat, dist: spec_fn(nat) -> T, k: usize)
    requires
        wave_frontier(f, current, w, dist),
        current.contains_key(k),
        f.height > 0,
    ensures
        0 <= k as int / f.height < f.width,
        0 <= k as int % f.height < f.height,
        cell_key(k as int / f.height, k as int % f.height, f.height) == k,
        in_layer(f, w, k as int / f.height, k as int % f.height)
            || (w > 0 && in_layer(f, (w - 1) as nat, k as int / f.height, k as int % f.height)
                && f.cells[k as int / f.height][k as int % f.height] == f.open),
        current[k] == dist(w),
{
    lemma_key_cell(k as int, f.width, f.height);
}

/// A cell still holding the open value during wave `w` is unprocessed,
/// reached by no earlier layer, and started open.
proof fn lemma_grid_cell<T>(f: Flood<T>, cur: Seq<Seq<T>>, gw: Seq<Seq<T>>, current: Map<usize, T>, done: Set<usize>, w: nat, dist: spec_fn(nat) -> T, i: int, j: int)
    requires
        grid_during_wave(f, cur, gw, done, w, dist),
        wave_grid(f, gw, w, dist),
        wave_frontier(f, current, w, dist),
        done_ok(current, done),
        dist_not_open(f, dist, w),
        0 <= i < f.width,
        0 <= j < f.height,
        cur[i][j] == f.open,
    ensures
        !done.contains(cell_key(i, j, f.height) as usize),
        !(w > 0 && reached(f, (w - 1) as nat, i, j)),
        f.cells[i][j] == f.open,
{
    assert(dist(w) != f.open);
    if w > 0 && reached(f, (w - 1) as nat, i, j) {
        let l = lemma_reached_layer(f, (w - 1) as nat, i, j);
        assert(dist(l) != f.open && dist(l + 1) != f.open);
    }
}

/// A cell of layer `w + 1` is not processed in wave `w` and still holds the
/// open value.
proof fn lemma_child_unvisited<T>(f: Flood<T>, cur: Seq<Seq<T>>, gw: Seq<Seq<T>>, current: Map<usize, T>, done: Set<usize>, w: nat, dist: spec_fn(nat) -> T, i: int, j: int)
    requires
        grid_during_wave(f, cur, gw, done, w, dist),
        wave_grid(f, gw, w, dist),
        wave_frontier(f, current, w, dist),
        done_ok(current, done),
        f.height > 0,
        f.width * f.height <= usize::MAX,
        in_layer(f, w + 1, i, j),
    ensures
        cur[i][j] == f.open,
{
    lemma_cell_key(i, j, f.width, f.height);
    let key = cell_key(i, j, f.height) as usize;
    assert(key as int == cell_key(i, j, f.height));
    if done.contains(key) {
        lemma_frontier_cell(f, current, w, dist, key);
        assert(key as int / f.height == i && key as int % f.height == j);
        if in_layer(f, w, i, j) {
            lemma_layers_disjoint(f, w, w + 1, i, j);
        } else {
            lemma_layers_disjoint(f, (w - 1) as nat, w + 1, i, j);
        }
    }
    if w > 0 && reached(f, (w - 1) as nat, i, j) {
        let l = lemma_reached_layer(f, (w - 1) as nat, i, j);
        lemma_layers_disjoint(f, l, w + 1, i, j);
    }
    assert(cur[i][j] == gw[i][j]);
    assert(gw[i][j] == f.cells[i][j]);
}

/// What a visit of the neighbour `(x, y)` of a frontier cell `(px, py)` may
/// rely on: if the neighbour still holds the open value, it belongs in the
/// next frontier; if it lies in layer `w + 1`, it still holds the open value.
pub proof fn lemma_visit_target<T>(
    f: Flood<T>,
    cur: Seq<Seq<T>>,
    gw: Seq<Seq<T>>,
    current: Map<usize, T>,
    done: Set<usize>,
    w: nat,
    dist: spec_fn(nat) -> T,
    px: int,
    py: int,
    x: int,
    y: int,
)
    requires
        wave_dims(f),
        dist_not_open(f, dist, w),
        wave_grid(f, gw, w, dist),
        wave_frontier(f, current, w, dist),
        done_ok(current, done),
        grid_during_wave(f, cur, gw, done, w, dist),
        in_layer(f, w, px, py) || (w > 0 && in_layer(f, (w - 1) as nat, px, py)),
        adjacent(px, py, x, y),
        0 <= x < f.width,
        0 <= y < f.height,
    ensures
        0 <= cell_key(x, y, f.height) < f.width * f.height,
        cell_key(x, y, f.height) / f.height == x,
        cell_key(x, y, f.height) % f.height == y,
        cur[x][y] == f.open ==> in_layer(f, w + 1, x, y) || (in_layer(f, w, x, y) && f.cells[x][y] == f.open),
        in_layer(f, w + 1, x, y) ==> cur[x][y] == f.open,
{
    lemma_cell_key(x, y, f.width, f.height);
    if cur[x][y] == f.open {
        lemma_grid_cell(f, cur, gw, current, done, w, dist, x, y);
        lemma_open_neighbour(f, w, px, py, x, y);
    }
    if in_layer(f, w + 1, x, y) {
        lemma_child_unvisited(f, cur, gw, current, done, w, dist, x, y);
    }
}

/// Processing the frontier cell `(x, y)`, that is writing `dist(w)` into it,
/// keeps the grid as the wave describes it, with the cell's key processed.
pub proof fn lemma_cell_processed<T>(
    f: Flood<T>,
    before: Seq<Seq<T>>,
    gw: Seq<Seq<T>>,
    current: Map<usize, T>,
    done: Set<usize>,
    w: nat,
    dist: spec_fn(nat) -> T,
    k: usize,
    x: int,
    y: int,
)
    requires
        wave_dims(f),
        grid_during_wave(f, before, gw, done, w, dist),
        done_ok(current, done),
        current.contains_key(k),
        0 <= x < f.width,
        0 <= y < f.height,
        k == cell_key(x, y, f.height),
    ensures
        grid_during_wave(f, with_cell(before, x, y, dist(w)), gw, done.insert(k), w, dist),
        done_ok(current, done.insert(k)),
{
    let after = with_cell(before, x, y, dist(w));
    let done2 = done.insert(k);
    lemma_with_cell_keeps_shape(before, x, y, dist(w), f.width, f.height);
    assert forall|i: int, j: int| 0 <= i < f.width && 0 <= j < f.height implies #[trigger] after[i][j]
        == if done2.contains(cell_key(i, j, f.height) as usize) { dist(w) } else { gw[i][j] } by {
        lemma_cell_key(i, j, f.width, f.height);
        lemma_cell_key(x, y, f.width, f.height);
        if i != x || j != y {
            assert(after[i][j] == before[i][j]);
            assert(cell_key(i, j, f.height) as usize != k);
        }
    }
}

/// After the four neighbours of the processed cell `(x, y)` were visited in
/// turn (the frontier growing from `fut0` through `fut1`, `fut2` and `fut3`
/// to `fut`), every cell of layer `w + 1` next to a processed cell of layer
/// `w` is in the next frontier.
pub proof fn lemma_children_visited<T, V>(
    f: Flood<T>,
    w: nat,
    done: Set<usize>,
    x: int,
    y: int,
    fut0: Map<usize, V>,
    fut1: Map<usize, V>,
    fut2: Map<usize, V>,
    fut3: Map<usize, V>,
    fut: Map<usize, V>,
)
    requires
        wave_dims(f),
        0 <= x < f.width,
        0 <= y < f.height,
        children_ok(f, fut0, done, w),
        forall|k: usize| fut0.contains_key(k) ==> #[trigger] fut1.contains_key(k),
        forall|k: usize| fut1.contains_key(k) ==> #[trigger] fut2.contains_key(k),
        forall|k: usize| fut2.contains_key(k) ==> #[trigger] fut3.contains_key(k),
        forall|k: usize| fut3.contains_key(k) ==> #[trigger] fut.contains_key(k),
        in_layer(f, w + 1, x - 1, y) ==> fut1.contains_key(cell_key(x - 1, y, f.height) as usize),
        in_layer(f, w + 1, x, y - 1) ==> fut2.contains_key(cell_key(x, y - 1, f.height) as usize),
        in_layer(f, w + 1, x + 1, y) ==> fut3.contains_key(cell_key(x + 1, y, f.height) as usize),
        in_layer(f, w + 1, x, y + 1) ==> fut.contains_key(cell_key(x, y + 1, f.height) as usize),
    ensures
        children_ok(f, fut, done.insert(cell_key(x, y, f.height) as usize), w),
{
    let h = f.height;
    let done2 = done.insert(cell_key(x, y, h) as usize);
    assert forall|i: int, j: int, pi: int, pj: int|
        #[trigger] in_layer(f, w + 1, i, j) && #[trigger] in_layer(f, w, pi, pj) && adjacent(pi, pj, i, j)
        && done2.contains(cell_key(pi, pj, h) as usize)
        implies fut.contains_key(cell_key(i, j, h) as usize) by {
        lemma_cell_key(pi, pj, f.width, f.height);
        lemma_cell_key(i, j, f.width, f.height);
        lemma_cell_key(x, y, f.width, f.height);
        if done.contains(cell_key(pi, pj, h) as usize) {
            assert(fut0.contains_key(cell_key(i, j, h) as usize));
            assert(fut1.contains_key(cell_key(i, j, h) as usize));
            assert(fut2.contains_key(cell_key(i, j, h) as usize));
            assert(fut3.contains_key(cell_key(i, j, h) as usize));
        } else {
            assert(pi == x && pj == y);
            if i == x - 1 {
                assert(fut1.contains_key(cell_key(i, j, h) as usize));
                assert(fut2.contains_key(cell_key(i, j, h) as usize));
                assert(fut3.contains_key(cell_key(i, j, h) as usize));
            } else if j == y - 1 {
                assert(fut2.contains_key(cell_key(i, j, h) as usize));
                assert(fut3.contains_key(cell_key(i, j, h) as usize));
            } else if i == x + 1 {
                assert(fut3.contains_key(cell_key(i, j, h) as usize));
            }
        }
    }
}

/// A cell processed during wave `w` is reached by layer `w`.
pub proof fn lemma_processed_reached<T>(f: Flood<T>, current: Map<usize, T>, w: nat, dist: spec_fn(nat) -> T, x: int, y: int)
    requires
        wave_dims(f),
        wave_frontier(f, current, w, dist),
        0 <= x < f.width,
        0 <= y < f.height,
        current.contains_key(cell_key(x, y, f.height) as usize),
    ensures
        reached(f, w, x, y),
{
    lemma_cell_key(x, y, f.width, f.height);
    lemma_frontier_cell(f, current, w, dist, cell_key(x, y, f.height) as usize);
    if in_layer(f, w, x, y) {
        lemma_layer_reached(f, w, w, x, y);
    } else {
        lemma_layer_reached(f, (w - 1) as nat, w, x, y);
    }
}

/// Once every frontier cell is processed, the grid and the next frontier are
/// as wave `w + 1` expects them.
pub proof fn lemma_wave_complete<T>(
    f: Flood<T>,
    w: nat,
    gw: Seq<Seq<T>>,
    current: Map<usize, T>,
    done: Set<usize>,
    cur: Seq<Seq<T>>,
    future: Map<usize, T>,
    dist: spec_fn(nat) -> T,
)
    requires
        wave_dims(f),
        wave_state(f, w, gw, current, done, cur, future, dist),
        forall|k: usize| #[trigger] current.contains_key(k) ==> done.contains(k),
    ensures
        wave_grid(f, cur, w + 1, dist),
        wave_frontier(f, future, w + 1, dist),
{
    let h = f.height;
    assert forall|i: int, j: int, k: nat| k < w + 1 && #[trigger] in_layer(f, k, i, j)
        implies cur[i][j] == dist(k) || cur[i][j] == dist(k + 1) by {
        lemma_cell_key(i, j, f.width, f.height);
        let key = cell_key(i, j, h) as usize;
        if k == w {
            assert(current.contains_key(key));
        } else if done.contains(key) {
            lemma_frontier_cell(f, current, w, dist, key);
            if in_layer(f, w, i, j) {
                lemma_layers_disjoint(f, k, w, i, j);
            } else {
                lemma_layers_disjoint(f, k, (w - 1) as nat, i, j);
            }
        } else {
            assert(cur[i][j] == gw[i][j]);
        }
    }
    assert forall|i: int, j: int, k: nat| k < w + 1 && #[trigger] in_layer(f, k, i, j) && f.cells[i][j] != f.open
        implies cur[i][j] == dist(k) by {
        lemma_cell_key(i, j, f.width, f.height);
        let key = cell_key(i, j, h) as usize;
        if k == w {
            assert(current.contains_key(key));
        } else if done.contains(key) {
            lemma_frontier_cell(f, current, w, dist, key);
            if in_layer(f, w, i, j) {
                lemma_layers_disjoint(f, k, w, i, j);
            }
        } else {
            assert(cur[i][j] == gw[i][j]);
        }
    }
    assert forall|i: int, j: int| 0 <= i < f.width && 0 <= j < f.height && !(w + 1 > 0 && reached(f, w, i, j))
        implies #[trigger] cur[i][j] == f.cells[i][j] by {
        lemma_cell_key(i, j, f.width, f.height);
        let key = cell_key(i, j, h) as usize;
        if done.contains(key) {
            lemma_frontier_cell(f, current, w, dist, key);
            if in_layer(f, w, i, j) {
            } else {
                lemma_layer_reached(f, (w - 1) as nat, w, i, j);
            }
        }
        assert(cur[i][j] == gw[i][j]);
        if w > 0 && reached(f, (w - 1) as nat, i, j) {
            let l = lemma_reached_layer(f, (w - 1) as nat, i, j);
            lemma_layer_reached(f, l, w, i, j);
        }
    }
    assert forall|i: int, j: int| #[trigger] in_layer(f, w + 1, i, j)
        implies future.contains_key(cell_key(i, j, h) as usize) by {
        let p = lemma_layer_has_parent(f, w, i, j);
        lemma_cell_key(p.0, p.1, f.width, f.height);
        assert(current.contains_key(cell_key(p.0, p.1, h) as usize));
    }
}

} // verus!
