use vstd::prelude::*;

verus! {

/// A breadth-first flood over a grid: the grid's contents before the flood,
/// the value that marks a cell the flood may still enter, which cells seed
/// the flood, and the grid's dimensions.
pub ghost struct Flood<T> {
    pub cells: Seq<Seq<T>>,
    pub open: T,
    pub seed: spec_fn(int, int) -> bool,
    pub width: int,
    pub height: int,
}

/// `(x, y)` lies in the flood's `k`-th layer: layer 0 holds the seeds, and
/// layer `k + 1` the open cells, in no earlier layer, that have a direct
/// neighbour in layer `k`.
pub open spec fn in_layer<T>(f: Flood<T>, k: nat, x: int, y: int) -> bool
    decreases k, 0nat,
{
    &&& 0 <= x < f.width
    &&& 0 <= y < f.height
    &&& if k == 0 {
        (f.seed)(x, y)
    } else {
        &&& f.cells[x][y] == f.open
        &&& !reached(f, (k - 1) as nat, x, y)
        &&& (in_layer(f, (k - 1) as nat, x - 1, y) || in_layer(f, (k - 1) as nat, x + 1, y)
            || in_layer(f, (k - 1) as nat, x, y - 1) || in_layer(f, (k - 1) as nat, x, y + 1))
    }
}

/// `(x, y)` lies in one of the layers `0..=k`.
pub open spec fn reached<T>(f: Flood<T>, k: nat, x: int, y: int) -> bool
    decreases k, 1nat,
{
    in_layer(f, k, x, y) || (k > 0 && reached(f, (k - 1) as nat, x, y))
}

/// No cell lies in layer `k`.
pub open spec fn layer_empty<T>(f: Flood<T>, k: nat) -> bool {
    forall|x: int, y: int| !#[trigger] in_layer(f, k, x, y)
}

/// `(x1, y1)` and `(x2, y2)` are direct (edge) neighbours.
pub open spec fn adjacent(x1: int, y1: int, x2: int, y2: int) -> bool {
    ||| x1 == x2 && (y1 == y2 + 1 || y2 == y1 + 1)
    ||| y1 == y2 && (x1 == x2 + 1 || x2 == x1 + 1)
}

/// The map key of cell `(x, y)` in a grid of height `h`.
pub open spec fn cell_key(x: int, y: int, h: int) -> int {
    x * h + y
}

/// A cell in a layer up to `k` is reached by `k`.
pub proof fn lemma_layer_reached<T>(f: Flood<T>, j: nat, k: nat, x: int, y: int)
    requires
        j <= k,
        in_layer(f, j, x, y),
    ensures
        reached(f, k, x, y),
    decreases k,
{
    if k > j {
        lemma_layer_reached(f, j, (k - 1) as nat, x, y);
    }
}

/// A cell reached by `k` lies in some layer up to `k`.
pub proof fn lemma_reached_layer<T>(f: Flood<T>, k: nat, x: int, y: int) -> (j: nat)
    requires
        reached(f, k, x, y),
    ensures
        j <= k,
        in_layer(f, j, x, y),
    decreases k,
{
    if in_layer(f, k, x, y) {
        k
    } else {
        lemma_reached_layer(f, (k - 1) as nat, x, y)
    }
}

/// Each cell lies in at most one layer.
pub proof fn lemma_layers_disjoint<T>(f: Flood<T>, j: nat, k: nat, x: int, y: int)
    requires
        in_layer(f, j, x, y),
        in_layer(f, k, x, y),
    ensures
        j == k,
{
    if j < k {
        lemma_layer_reached(f, j, (k - 1) as nat, x, y);
    } else if k < j {
        lemma_layer_reached(f, k, (j - 1) as nat, x, y);
    }
}

/// Once a layer is empty, every later layer is empty.
pub proof fn lemma_empty_layers_stay_empty<T>(f: Flood<T>, k: nat, m: nat)
    requires
        layer_empty(f, k),
        k <= m,
    ensures
        layer_empty(f, m),
    decreases m - k,
{
    if m > k {
        lemma_empty_layers_stay_empty(f, k, (m - 1) as nat);
        assert forall|x: int, y: int| !#[trigger] in_layer(f, m, x, y) by {
            assert(!in_layer(f, (m - 1) as nat, x - 1, y));
            assert(!in_layer(f, (m - 1) as nat, x + 1, y));
            assert(!in_layer(f, (m - 1) as nat, x, y - 1));
            assert(!in_layer(f, (m - 1) as nat, x, y + 1));
        }
    }
}

/// An open cell, not reached before layer `w`, next to a cell of layer `w` or
/// `w - 1`, lies in layer `w` or `w + 1`.
pub proof fn lemma_open_neighbour<T>(f: Flood<T>, w: nat, px: int, py: int, x: int, y: int)
    requires
        in_layer(f, w, px, py) || (w > 0 && in_layer(f, (w - 1) as nat, px, py)),
        adjacent(px, py, x, y),
        0 <= x < f.width,
        0 <= y < f.height,
        f.cells[x][y] == f.open,
        !(w > 0 && reached(f, (w - 1) as nat, x, y)),
    ensures
        in_layer(f, w, x, y) || in_layer(f, w + 1, x, y),
{
    if in_layer(f, w, px, py) {
        if !reached(f, w, x, y) {
            assert(in_layer(f, w + 1, x, y));
        }
    } else {
        assert(in_layer(f, w, x, y));
    }
}

/// A cell of layer `k + 1` has a direct neighbour in layer `k`.
pub proof fn lemma_layer_has_parent<T>(f: Flood<T>, k: nat, x: int, y: int) -> (p: (int, int))
    requires
        in_layer(f, k + 1, x, y),
    ensures
        in_layer(f, k, p.0, p.1),
        adjacent(p.0, p.1, x, y),
{
    if in_layer(f, k, x - 1, y) {
        (x - 1, y)
    } else if in_layer(f, k, x + 1, y) {
        (x + 1, y)
    } else if in_layer(f, k, x, y - 1) {
        (x, y - 1)
    } else {
        (x, y + 1)
    }
}

/// Keys of cells in a `w` by `h` grid lie below `w * h` and give back the cell.
pub proof fn lemma_cell_key(x: int, y: int, w: int, h: int)
    requires
        0 <= x < w,
        0 <= y < h,
    ensures
        0 <= cell_key(x, y, h) < w * h,
        cell_key(x, y, h) / h == x,
        cell_key(x, y, h) % h == y,
{
    assert(0 <= x * h) by (nonlinear_arith)
        requires 0 <= x, 0 <= h;
    assert(x * h + y < w * h) by (nonlinear_arith)
        requires 0 <= x < w, 0 <= y < h;
    vstd::arithmetic::div_mod::lemma_fundamental_div_mod_converse(x * h + y, h, x, y);
}

/// A key below `w * h` is the key of a cell of the grid.
pub proof fn lemma_key_cell(k: int, w: int, h: int)
    requires
        0 <= k < w * h,
        0 < h,
    ensures
        0 <= k / h < w,
        0 <= k % h < h,
        cell_key(k / h, k % h, h) == k,
{
    vstd::arithmetic::div_mod::lemma_fundamental_div_mod(k, h);
    assert(0 <= k / h) by (nonlinear_arith)
        requires 0 <= k, 0 < h;
    assert(k / h < w) by (nonlinear_arith)
        requires 0 <= k < w * h, 0 < h, k == h * (k / h) + k % h, 0 <= k % h;
    assert(h * (k / h) == (k / h) * h) by (nonlinear_arith);
}

/// Cells `(x, y)` with `y0 <= y < y1` satisfying `p`, in column `x`.
pub open spec fn count_in_column(p: spec_fn(int, int) -> bool, x: int, y1: int) -> nat
    decreases y1,
{
    if y1 <= 0 {
        0
    } else {
        count_in_column(p, x, y1 - 1) + if p(x, y1 - 1) { 1nat } else { 0nat }
    }
}

/// Cells of columns `0..x1` and rows `0..h` satisfying `p`.
pub open spec fn count_cells(p: spec_fn(int, int) -> bool, x1: int, h: int) -> nat
    decreases x1,
{
    if x1 <= 0 {
        0
    } else {
        count_cells(p, x1 - 1, h) + count_in_column(p, x1 - 1, h)
    }
}

proof fn lemma_count_in_column_mono(p: spec_fn(int, int) -> bool, q: spec_fn(int, int) -> bool, x: int, y1: int, y: int)
    requires
        forall|i: int, j: int| #[trigger] p(i, j) ==> q(i, j),
    ensures
        count_in_column(p, x, y1) <= count_in_column(q, x, y1),
        0 <= y < y1 && q(x, y) && !p(x, y) ==> count_in_column(p, x, y1) < count_in_column(q, x, y1),
    decreases y1,
{
    if y1 > 0 {
        lemma_count_in_column_mono(p, q, x, y1 - 1, y);
    }
}

/// Counting a predicate that implies another gives no more cells; strictly
/// fewer when a cell of the grid satisfies only the other.
pub proof fn lemma_count_cells_mono(p: spec_fn(int, int) -> bool, q: spec_fn(int, int) -> bool, x1: int, h: int, x: int, y: int)
    requires
        forall|i: int, j: int| #[trigger] p(i, j) ==> q(i, j),
    ensures
        count_cells(p, x1, h) <= count_cells(q, x1, h),
        0 <= x < x1 && 0 <= y < h && q(x, y) && !p(x, y) ==> count_cells(p, x1, h) < count_cells(q, x1, h),
    decreases x1,
{
    if x1 > 0 {
        lemma_count_cells_mono(p, q, x1 - 1, h, x, y);
        lemma_count_in_column_mono(p, q, x1 - 1, h, y);
    }
}

/// Direct neighbours that both lie in layers of a flood lie in the same
/// layer or in consecutive ones.
pub proof fn law_adjacent_layers<T>(f: Flood<T>, j: nat, k: nat, x1: int, y1: int, x2: int, y2: int)
    requires
        in_layer(f, j, x1, y1),
        in_layer(f, k, x2, y2),
        adjacent(x1, y1, x2, y2),
    ensures
        j <= k + 1,
        k <= j + 1,
{
    lemma_adjacent_layer_bound(f, j, k, x1, y1, x2, y2);
    lemma_adjacent_layer_bound(f, k, j, x2, y2, x1, y1);
}

proof fn lemma_adjacent_layer_bound<T>(f: Flood<T>, j: nat, k: nat, x1: int, y1: int, x2: int, y2: int)
    requires
        in_layer(f, j, x1, y1),
        in_layer(f, k, x2, y2),
        adjacent(x1, y1, x2, y2),
    ensures
        k <= j + 1,
{
    // A later cell is open and unreached before its layer, yet it touches
    // layer `j`, so it lies in layer `j + 1` at the latest.
    if k >= j + 2 {
        assert(f.cells[x2][y2] == f.open);
        assert(!reached(f, (k - 1) as nat, x2, y2));
        if reached(f, j, x2, y2) {
            lemma_reached_layer_mono(f, j, (k - 1) as nat, x2, y2);
        } else {
            assert(in_layer(f, j + 1, x2, y2));
            lemma_layer_reached(f, j + 1, (k - 1) as nat, x2, y2);
        }
    }
}

/// Reaching a cell by layer `j` reaches it by every later layer.
pub proof fn lemma_reached_layer_mono<T>(f: Flood<T>, j: nat, k: nat, x: int, y: int)
    requires
        reached(f, j, x, y),
        j <= k,
    ensures
        reached(f, k, x, y),
{
    let l = lemma_reached_layer(f, j, x, y);
    lemma_layer_reached(f, l, k, x, y);
}

proof fn lemma_count_in_column_one_more(p: spec_fn(int, int) -> bool, q: spec_fn(int, int) -> bool, x: int, y1: int, cx: int, cy: int)
    requires
        forall|j: int| 0 <= j < y1 && #[trigger] p(x, j) && (x != cx || j != cy) ==> q(x, j),
    ensures
        count_in_column(p, x, y1) <= count_in_column(q, x, y1) + (if x == cx && 0 <= cy < y1 { 1int } else { 0 }),
    decreases y1,
{
    if y1 > 0 {
        lemma_count_in_column_one_more(p, q, x, y1 - 1, cx, cy);
    }
}

/// Counting a predicate that implies another everywhere but at one cell
/// gives at most one cell more.
pub proof fn lemma_count_cells_one_more(p: spec_fn(int, int) -> bool, q: spec_fn(int, int) -> bool, x1: int, h: int, cx: int, cy: int)
    requires
        forall|i: int, j: int| 0 <= i < x1 && 0 <= j < h && #[trigger] p(i, j) && (i != cx || j != cy) ==> q(i, j),
    ensures
        count_cells(p, x1, h) <= count_cells(q, x1, h) + 1,
    decreases x1,
{
    lemma_count_cells_one_more_at(p, q, x1, h, cx, cy);
}

proof fn lemma_count_cells_one_more_at(p: spec_fn(int, int) -> bool, q: spec_fn(int, int) -> bool, x1: int, h: int, cx: int, cy: int)
    requires
        forall|i: int, j: int| 0 <= i < x1 && 0 <= j < h && #[trigger] p(i, j) && (i != cx || j != cy) ==> q(i, j),
    ensures
        count_cells(p, x1, h) <= count_cells(q, x1, h) + (if 0 <= cx < x1 { 1int } else { 0 }),
    decreases x1,
{
    if x1 > 0 {
        lemma_count_cells_one_more_at(p, q, x1 - 1, h, cx, cy);
        lemma_count_in_column_one_more(p, q, x1 - 1, h, cx, cy);
    }
}

/// A predicate that no cell satisfies counts no cell.
pub proof fn lemma_count_cells_none(p: spec_fn(int, int) -> bool, x1: int, h: int)
    requires
        forall|i: int, j: int| !#[trigger] p(i, j),
    ensures
        count_cells(p, x1, h) == 0,
    decreases x1,
{
    if x1 > 0 {
        lemma_count_cells_none(p, x1 - 1, h);
        lemma_count_in_column_none(p, x1 - 1, h);
    }
}

proof fn lemma_count_in_column_none(p: spec_fn(int, int) -> bool, x: int, y1: int)
    requires
        forall|i: int, j: int| !#[trigger] p(i, j),
    ensures
        count_in_column(p, x, y1) == 0,
    decreases y1,
{
    if y1 > 0 {
        lemma_count_in_column_none(p, x, y1 - 1);
    }
}

} // verus!
