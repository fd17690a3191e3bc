use vstd::prelude::*;
use std::collections::HashMap;
use vstd::std_specs::iter::IteratorSpec;
use crate::grid::{rows, is_grid, set_cell, lemma_with_cell_keeps_shape};
use crate::flood::{Flood, in_layer, reached, layer_empty, adjacent, cell_key, lemma_layer_reached, lemma_reached_layer, lemma_layers_disjoint, lemma_empty_layers_stay_empty, lemma_open_neighbour, lemma_layer_has_parent, lemma_cell_key};
use crate::wave::{wave_dims, dist_not_open, wave_grid, wave_frontier, grid_during_wave, future_ok, done_ok, wave_state, lemma_frontier_cell, lemma_visit_target, lemma_cell_processed, lemma_children_visited, lemma_processed_reached, lemma_wave_complete};
use crate::random::random_chance;

verus! {

broadcast use vstd::std_specs::hash::group_hash_axioms;

/// `(x, y)` is a shore cell: land (not 0) with water (0) among its direct
/// neighbours inside the grid.
pub open spec fn is_shore(g: Seq<Seq<u8>>, w: int, h: int, x: int, y: int) -> bool {
    &&& 0 <= x < w
    &&& 0 <= y < h
    &&& g[x][y] != 0
    &&& ((x > 0 && g[x - 1][y] == 0) || (y > 0 && g[x][y - 1] == 0)
        || (x < w - 1 && g[x + 1][y] == 0) || (y < h - 1 && g[x][y + 1] == 0))
}

/// The flood from the shore over unvisited land (255).
pub open spec fn shore_flood(g: Seq<Seq<u8>>, w: int, h: int) -> Flood<u8> {
    Flood { cells: g, open: 255u8, seed: |x: int, y: int| is_shore(g, w, h, x, y), width: w, height: h }
}

/// Collects the shore cells, each at distance 1, keyed by `cell_key`.
fn shore_seeds(chunks: &Vec<Vec<u8>>, width: usize, height: usize) -> (seeds: HashMap<usize, u8>)
    requires
        is_grid(rows(chunks@), width as int, height as int),
        width * height <= usize::MAX,
    ensures
        forall|k: usize| #[trigger] seeds@.contains_key(k) ==> {
            &&& k < width * height
            &&& in_layer(shore_flood(rows(chunks@), width as int, height as int), 0, k as int / height as int, k as int % height as int)
            &&& seeds@[k] == 1
        },
        forall|x: int, y: int| #[trigger] in_layer(shore_flood(rows(chunks@), width as int, height as int), 0, x, y)
            ==> seeds@.contains_key(cell_key(x, y, height as int) as usize),
{
    let ghost g = rows(chunks@);
    let ghost f = shore_flood(g, width as int, height as int);
    let mut seeds: HashMap<usize, u8> = HashMap::new();
    let mut x: usize = 0;
    while x < width
        invariant
            x <= width,
            g == rows(chunks@),
            f == shore_flood(g, width as int, height as int),
            is_grid(g, width as int, height as int),
            width * height <= usize::MAX,
            forall|k: usize| #[trigger] seeds@.contains_key(k) ==> {
                &&& k < width * height
                &&& in_layer(f, 0, k as int / height as int, k as int % height as int)
                &&& seeds@[k] == 1
            },
            forall|i: int, j: int| #[trigger] in_layer(f, 0, i, j) && i < x
                ==> seeds@.contains_key(cell_key(i, j, height as int) as usize),
        decreases width - x,
    {
        let mut y: usize = 0;
        while y < height
            invariant
                x < width,
                y <= height,
                g == rows(chunks@),
                f == shore_flood(g, width as int, height as int),
                is_grid(g, width as int, height as int),
                width * height <= usize::MAX,
                forall|k: usize| #[trigger] seeds@.contains_key(k) ==> {
                    &&& k < width * height
                    &&& in_layer(f, 0, k as int / height as int, k as int % height as int)
                    &&& seeds@[k] == 1
                },
                forall|i: int, j: int| #[trigger] in_layer(f, 0, i, j) && (i < x || (i == x && j < y))
                    ==> seeds@.contains_key(cell_key(i, j, height as int) as usize),
            decreases height - y,
        {
            assert(forall|i: int| 0 <= i < width ==> (#[trigger] chunks@[i])@ == g[i]);
            assert(g[x as int].len() == height);
            if x > 0 { assert(g[x - 1].len() == height); }
            if x < width - 1 { assert(g[x + 1].len() == height); }
            if chunks[x][y] != 0 {
                let water = (x > 0 && chunks[x - 1][y] == 0) || (y > 0 && chunks[x][y - 1] == 0)
                    || (x < width - 1 && chunks[x + 1][y] == 0) || (y < height - 1 && chunks[x][y + 1] == 0);
                if water {
                    proof {
                        lemma_cell_key(x as int, y as int, width as int, height as int);
                    }
                    let key = x * height + y;
                    seeds.insert(key, 1u8);
                    assert(in_layer(f, 0, x as int, y as int));
                }
            }
            y = y + 1;
        }
        x = x + 1;
    }
    seeds
}

/// The key of the 10 by 10 bin holding `(x, y)` in a grid of height `h`.
pub open spec fn bin_key(x: int, y: int, h: int) -> int {
    (x / 10) * h + y / 10
}

/// A visited cell at distance `d` may start a river: it lies off the grid's
/// first row and column and at least two cells from its far edges, and
/// farther than 35 from the shore.
pub open spec fn start_eligible(x: int, y: int, d: int, w: int, h: int) -> bool {
    0 < x && 0 < y && x + 2 < w && y + 2 < h && d > 35
}

/// Records `(x, y)` as the starting point of its 10 by 10 bin, replacing the
/// bin's earlier one, when the cell is eligible and its draw came out
/// (`drawn`); otherwise the starting points stay as they are.
pub fn record_start(
    starts: &mut HashMap<usize, (usize, usize)>,
    x: usize,
    y: usize,
    d: u8,
    width: usize,
    height: usize,
    drawn: bool,
)
    requires
        x < width,
        y < height,
        width * height <= usize::MAX,
    ensures
        final(starts)@ == if drawn && start_eligible(x as int, y as int, d as int, width as int, height as int) {
            old(starts)@.insert(bin_key(x as int, y as int, height as int) as usize, (x, y))
        } else {
            old(starts)@
        },
{
    if drawn && x > 0 && y > 0 && x < width - 2 && y < height - 2 && d > 35 {
        assert((x / 10) * height + y / 10 <= x * height + y) by (nonlinear_arith)
            requires 0 <= x, 0 <= y, 0 <= height;
        assert(x * height + y < width * height) by (nonlinear_arith)
            requires x < width, y < height;
        let bin = (x / 10) * height + y / 10;
        starts.insert(bin, (x, y));
    }
}

/// The distance the shore waves write for the flood's layer `k`: `k + 1`.
pub open spec fn shore_dist() -> spec_fn(nat) -> u8 {
    |k: nat| (k + 1) as u8
}

/// The facts about the grid shared by every step of a wave.
pub open spec fn wave_setting(f: Flood<u8>, width: usize, height: usize, w: nat) -> bool {
    &&& f.width == width
    &&& f.height == height
    &&& f.open == 255
    &&& wave_dims(f)
    &&& w <= 253
    &&& dist_not_open(f, shore_dist(), w)
}

/// The river starting points recorded so far: interior cells whose distance
/// exceeds 35, each under the key of its bin, and already reached.
pub open spec fn valid_starts(f: Flood<u8>, cur: Seq<Seq<u8>>, m: Map<usize, (usize, usize)>, reached_cell: spec_fn(int, int) -> bool) -> bool {
    forall|k: usize| #[trigger] m.contains_key(k) ==> {
        let x = m[k].0 as int;
        let y = m[k].1 as int;
        &&& 0 < x && x + 2 < f.width
        &&& 0 < y && y + 2 < f.height
        &&& k == bin_key(x, y, f.height)
        &&& cur[x][y] > 35
        &&& reached_cell(x, y)
    }
}

/// Reached before wave `w`.
pub open spec fn reached_before(f: Flood<u8>, w: nat) -> spec_fn(int, int) -> bool {
    |x: int, y: int| w > 0 && reached(f, (w - 1) as nat, x, y)
}

/// Every interior cell satisfying `reached_cell` whose distance exceeds 35
/// has a starting point recorded for its bin.
pub open spec fn complete_starts(f: Flood<u8>, cur: Seq<Seq<u8>>, m: Map<usize, (usize, usize)>, reached_cell: spec_fn(int, int) -> bool) -> bool {
    forall|x: int, y: int| 0 < x && x + 2 < f.width && 0 < y && y + 2 < f.height && reached_cell(x, y) && #[trigger] cur[x][y] > 35
        ==> m.contains_key(bin_key(x, y, f.height) as usize)
}

/// What the chance `numerator / denominator` of each eligible cell's draw
/// fixes of the starting points: none when it is 0, and one in every bin
/// holding an eligible cell when it is certain.
pub open spec fn starts_by_chance(f: Flood<u8>, cur: Seq<Seq<u8>>, m: Map<usize, (usize, usize)>, reached_cell: spec_fn(int, int) -> bool, numerator: u32, denominator: u32) -> bool {
    &&& numerator == 0 ==> m == Map::<usize, (usize, usize)>::empty()
    &&& numerator == denominator ==> complete_starts(f, cur, m, reached_cell)
}

/// Adds the cell `(x, y)` to the next frontier at distance `d + 1` when it is
/// still unvisited land.
fn visit_cell(chunks: &Vec<Vec<u8>>, future: &mut HashMap<usize, u8>, x: usize, y: usize, width: usize, height: usize, d: u8)
    requires
        is_grid(rows(chunks@), width as int, height as int),
        x < width,
        y < height,
        width * height <= usize::MAX,
        d < 255,
        forall|k: usize| #[trigger] old(future)@.contains_key(k) ==> old(future)@[k] == d + 1,
    ensures
        rows(chunks@)[x as int][y as int] == 255 ==> final(future)@ == old(future)@.insert(cell_key(x as int, y as int, height as int) as usize, (d + 1) as u8),
        rows(chunks@)[x as int][y as int] != 255 ==> final(future)@ == old(future)@,
{
    assert(chunks@[x as int]@ == rows(chunks@)[x as int]);
    if chunks[x][y] == 255 {
        proof {
            lemma_cell_key(x as int, y as int, width as int, height as int);
        }
        let key = x * height + y;
        let existing = match future.get(&key) {
            Some(v) => *v,
            None => 255u8,
        };
        let next = if d + 1 < existing { d + 1 } else { existing };
        future.insert(key, next);
    }
}


/// Adds the neighbour `(x, y)` of the processed cell `(px, py)` to the next
/// frontier when it is still unvisited land.
fn wave_visit(
    chunks: &Vec<Vec<u8>>,
    future: &mut HashMap<usize, u8>,
    x: usize,
    y: usize,
    width: usize,
    height: usize,
    d: u8,
    Ghost(f): Ghost<Flood<u8>>,
    Ghost(w): Ghost<nat>,
    Ghost(gw): Ghost<Seq<Seq<u8>>>,
    Ghost(current): Ghost<Map<usize, u8>>,
    Ghost(done): Ghost<Set<usize>>,
    Ghost(px): Ghost<int>,
    Ghost(py): Ghost<int>,
)
    requires
        wave_setting(f, width, height, w),
        wave_grid(f, gw, w, shore_dist()),
        wave_frontier(f, current, w, shore_dist()),
        done_ok(current, done),
        grid_during_wave(f, rows(chunks@), gw, done, w, shore_dist()),
        future_ok(f, old(future)@, w, shore_dist()),
        in_layer(f, w, px, py) || (w > 0 && in_layer(f, (w - 1) as nat, px, py)),
        adjacent(px, py, x as int, y as int),
        x < width,
        y < height,
        d == w + 1,
    ensures
        future_ok(f, final(future)@, w, shore_dist()),
        forall|k: usize| old(future)@.contains_key(k) ==> #[trigger] final(future)@.contains_key(k),
        in_layer(f, w + 1, x as int, y as int) ==> final(future)@.contains_key(cell_key(x as int, y as int, height as int) as usize),
{
    proof {
        assert forall|k: usize| #[trigger] old(future)@.contains_key(k) implies old(future)@[k] == d + 1 by {}
        lemma_visit_target(f, rows(chunks@), gw, current, done, w, shore_dist(), px, py, x as int, y as int);
    }
    visit_cell(chunks, future, x, y, width, height, d);
}

/// Reached before wave `w`, or processed during it.
pub open spec fn reached_in_wave(f: Flood<u8>, w: nat, done: Set<usize>) -> spec_fn(int, int) -> bool {
    |x: int, y: int| (w > 0 && reached(f, (w - 1) as nat, x, y)) || done.contains(cell_key(x, y, f.height) as usize)
}

/// The state of a wave after the cells in `done` have been processed,
/// starting points included.
pub open spec fn wave_progress(
    f: Flood<u8>,
    w: nat,
    gw: Seq<Seq<u8>>,
    current: Map<usize, u8>,
    done: Set<usize>,
    cur: Seq<Seq<u8>>,
    future: Map<usize, u8>,
    starts: Map<usize, (usize, usize)>,
    numerator: u32,
    denominator: u32,
) -> bool {
    &&& wave_state(f, w, gw, current, done, cur, future, shore_dist())
    &&& valid_starts(f, cur, starts, reached_in_wave(f, w, done))
    &&& starts_by_chance(f, cur, starts, reached_in_wave(f, w, done), numerator, denominator)
}

/// Processes the frontier cell with key `k` at distance `d`.
fn wave_step(
    chunks: &mut Vec<Vec<u8>>,
    future: &mut HashMap<usize, u8>,
    starts: &mut HashMap<usize, (usize, usize)>,
    k: usize,
    d: u8,
    width: usize,
    height: usize,
    numerator: u32,
    denominator: u32,
    Ghost(f): Ghost<Flood<u8>>,
    Ghost(w): Ghost<nat>,
    Ghost(gw): Ghost<Seq<Seq<u8>>>,
    Ghost(current): Ghost<Map<usize, u8>>,
    Ghost(done): Ghost<Set<usize>>,
)
    requires
        wave_setting(f, width, height, w),
        wave_progress(f, w, gw, current, done, rows(old(chunks)@), old(future)@, old(starts)@, numerator, denominator),
        current.contains_key(k),
        current[k] == d,
        !done.contains(k),
        0 < denominator,
        numerator <= denominator,
    ensures
        wave_progress(f, w, gw, current, done.insert(k), rows(final(chunks)@), final(future)@, final(starts)@, numerator, denominator),
{
    let ghost h = height as int;
    proof {
        lemma_frontier_cell(f, current, w, shore_dist(), k);
    }
    let x = k / height;
    let y = k % height;
    let ghost done2 = done.insert(k);
    let ghost before = rows(chunks@);
    assert(chunks@[x as int]@ == before[x as int]);
    set_cell(chunks, x, y, d);
    let ghost after = rows(chunks@);
    proof {
        lemma_cell_processed(f, before, gw, current, done, w, shore_dist(), k, x as int, y as int);
    }
    let ghost starts_before = starts@;
    let drawn = x > 0 && y > 0 && x < width - 2 && y < height - 2 && d > 35 && random_chance(numerator, denominator);
    record_start(starts, x, y, d, width, height, drawn);
    proof {
        assert((x / 10) * height + y / 10 <= x * height + y) by (nonlinear_arith)
            requires 0 <= x, 0 <= y, 0 <= height;
        assert(x * height + y < width * height) by (nonlinear_arith)
            requires x < width, y < height;
        assert(bin_key(x as int, y as int, height as int) as usize == bin_key(x as int, y as int, height as int));
    }
    proof {
        let rw = reached_in_wave(f, w, done2);
        assert forall|kk: usize| #[trigger] starts@.contains_key(kk) implies {
            let sx = starts@[kk].0 as int;
            let sy = starts@[kk].1 as int;
            &&& 0 < sx && sx + 2 < f.width
            &&& 0 < sy && sy + 2 < f.height
            &&& kk == bin_key(sx, sy, f.height)
            &&& after[sx][sy] > 35
            &&& rw(sx, sy)
        } by {
            if starts_before.contains_key(kk) && starts@[kk] == starts_before[kk] {
                let sx = starts@[kk].0 as int;
                let sy = starts@[kk].1 as int;
                assert(reached_in_wave(f, w, done)(sx, sy));
                lemma_cell_key(sx, sy, f.width, f.height);
                if sx == x && sy == y {
                    assert(cell_key(sx, sy, h) as usize == k);
                    assert(w > 0 && reached(f, (w - 1) as nat, sx, sy));
                    let l = lemma_reached_layer(f, (w - 1) as nat, sx, sy);
                    if in_layer(f, w, sx, sy) {
                        lemma_layers_disjoint(f, l, w, sx, sy);
                    } else {
                        lemma_layers_disjoint(f, l, (w - 1) as nat, sx, sy);
                    }
                    assert(before[sx][sy] == gw[sx][sy]);
                } else {
                    assert(after[sx][sy] == before[sx][sy]);
                }
            } else {
                lemma_cell_key(x as int, y as int, f.width, f.height);
            }
        }
    }
    proof {
        let rw = reached_in_wave(f, w, done2);
        let rw0 = reached_in_wave(f, w, done);
        if numerator == 0 {
            assert(starts@ == starts_before);
        }
        if numerator == denominator {
            assert forall|i: int, j: int| 0 < i && i + 2 < f.width && 0 < j && j + 2 < f.height && rw(i, j) && #[trigger] after[i][j] > 35
                implies starts@.contains_key(bin_key(i, j, f.height) as usize) by {
                lemma_cell_key(i, j, f.width, f.height);
                if i == x && j == y {
                    assert(after[i][j] == d);
                } else {
                    assert(after[i][j] == before[i][j]);
                    assert(cell_key(i, j, h) as usize != k);
                    assert(rw0(i, j));
                    assert(starts_before.contains_key(bin_key(i, j, f.height) as usize));
                }
            }
        }
    }
    let ghost fut0 = future@;
    if x > 0 {
        wave_visit(chunks, future, x - 1, y, width, height, d, Ghost(f), Ghost(w), Ghost(gw), Ghost(current), Ghost(done2), Ghost(x as int), Ghost(y as int));
    }
    let ghost fut1 = future@;
    if y > 0 {
        wave_visit(chunks, future, x, y - 1, width, height, d, Ghost(f), Ghost(w), Ghost(gw), Ghost(current), Ghost(done2), Ghost(x as int), Ghost(y as int));
    }
    let ghost fut2 = future@;
    if x < width - 1 {
        wave_visit(chunks, future, x + 1, y, width, height, d, Ghost(f), Ghost(w), Ghost(gw), Ghost(current), Ghost(done2), Ghost(x as int), Ghost(y as int));
    }
    let ghost fut3 = future@;
    if y < height - 1 {
        wave_visit(chunks, future, x, y + 1, width, height, d, Ghost(f), Ghost(w), Ghost(gw), Ghost(current), Ghost(done2), Ghost(x as int), Ghost(y as int));
    }
    proof {
        lemma_children_visited(f, w, done, x as int, y as int, fut0, fut1, fut2, fut3, future@);
    }
}

/// Once every frontier cell is processed, the starting points recorded are
/// reached before wave `w + 1`.
proof fn lemma_starts_complete(
    f: Flood<u8>,
    w: nat,
    current: Map<usize, u8>,
    done: Set<usize>,
    cur: Seq<Seq<u8>>,
    starts: Map<usize, (usize, usize)>,
    numerator: u32,
    denominator: u32,
)
    requires
        wave_dims(f),
        wave_frontier(f, current, w, shore_dist()),
        done_ok(current, done),
        forall|k: usize| #[trigger] current.contains_key(k) ==> done.contains(k),
        valid_starts(f, cur, starts, reached_in_wave(f, w, done)),
        starts_by_chance(f, cur, starts, reached_in_wave(f, w, done), numerator, denominator),
    ensures
        valid_starts(f, cur, starts, reached_before(f, w + 1)),
        starts_by_chance(f, cur, starts, reached_before(f, w + 1), numerator, denominator),
{
    if numerator == denominator {
        assert forall|x: int, y: int| 0 < x && x + 2 < f.width && 0 < y && y + 2 < f.height && reached_before(f, w + 1)(x, y) && #[trigger] cur[x][y] > 35
            implies starts.contains_key(bin_key(x, y, f.height) as usize) by {
            let l = lemma_reached_layer(f, w, x, y);
            if l == w {
                lemma_cell_key(x, y, f.width, f.height);
                assert(current.contains_key(cell_key(x, y, f.height) as usize));
            } else {
                lemma_layer_reached(f, l, (w - 1) as nat, x, y);
            }
            assert(reached_in_wave(f, w, done)(x, y));
        }
    }
    assert forall|k: usize| #[trigger] starts.contains_key(k) implies reached_before(f, w + 1)(starts[k].0 as int, starts[k].1 as int) by {
        let sx = starts[k].0 as int;
        let sy = starts[k].1 as int;
        assert(reached_in_wave(f, w, done)(sx, sy));
        if done.contains(cell_key(sx, sy, f.height) as usize) {
            lemma_processed_reached(f, current, w, shore_dist(), sx, sy);
        } else {
            let l = lemma_reached_layer(f, (w - 1) as nat, sx, sy);
            lemma_layer_reached(f, l, w, sx, sy);
        }
    }
}

/// Processes one wave of the shore flood: every frontier cell takes its
/// distance, may become a river starting point, and passes the next distance
/// to its unvisited land neighbours.
fn shore_wave(
    chunks: &mut Vec<Vec<u8>>,
    width: usize,
    height: usize,
    current: &HashMap<usize, u8>,
    future: &mut HashMap<usize, u8>,
    starts: &mut HashMap<usize, (usize, usize)>,
    numerator: u32,
    denominator: u32,
    Ghost(f): Ghost<Flood<u8>>,
    Ghost(w): Ghost<nat>,
)
    requires
        wave_setting(f, width, height, w),
        wave_grid(f, rows(old(chunks)@), w, shore_dist()),
        wave_frontier(f, current@, w, shore_dist()),
        valid_starts(f, rows(old(chunks)@), old(starts)@, reached_before(f, w)),
        starts_by_chance(f, rows(old(chunks)@), old(starts)@, reached_before(f, w), numerator, denominator),
        old(future)@ == Map::<usize, u8>::empty(),
        0 < denominator,
        numerator <= denominator,
    ensures
        wave_grid(f, rows(final(chunks)@), w + 1, shore_dist()),
        wave_frontier(f, final(future)@, w + 1, shore_dist()),
        valid_starts(f, rows(final(chunks)@), final(starts)@, reached_before(f, w + 1)),
        starts_by_chance(f, rows(final(chunks)@), final(starts)@, reached_before(f, w + 1), numerator, denominator),
{
    let ghost gw = rows(chunks@);
    let ghost mut done: Set<usize> = Set::empty();
    proof {
        assert forall|k: usize| #[trigger] starts@.contains_key(k)
            implies reached_in_wave(f, w, done)(starts@[k].0 as int, starts@[k].1 as int) by {
            assert(reached_before(f, w)(starts@[k].0 as int, starts@[k].1 as int));
        }
        if numerator == denominator {
            assert forall|x: int, y: int| 0 < x && x + 2 < f.width && 0 < y && y + 2 < f.height && reached_in_wave(f, w, done)(x, y) && #[trigger] rows(chunks@)[x][y] > 35
                implies starts@.contains_key(bin_key(x, y, f.height) as usize) by {
                assert(reached_before(f, w)(x, y));
            }
        }
    }
    for (key, dist) in it: current.iter()
        invariant
            it.seq() == current.iter().remaining(),
            it.seq().no_duplicates(),
            wave_setting(f, width, height, w),
            wave_progress(f, w, gw, current@, done, rows(chunks@), future@, starts@, numerator, denominator),
            0 < denominator,
            numerator <= denominator,
            forall|m: int| 0 <= m < it.index() ==> done.contains(*it.seq()[m].0),
            forall|k: usize| #[trigger] done.contains(k) ==> exists|m: int| 0 <= m < it.index() && *it.seq()[m].0 == k,
    {
        let k = *key;
        let d = *dist;
        assert(current@.contains_key(k) && current@[k] == d) by {
            let s = current.iter().remaining();
            assert(s[it.index()] == (key, dist));
        }
        assert(!done.contains(k)) by {
            if done.contains(k) {
                let m = choose|m: int| 0 <= m < it.index() && *it.seq()[m].0 == k;
                let s = current.iter().remaining();
                assert(s.no_duplicates());
                assert(*s[m].1 == current@[k]);
                assert(s[m] == s[it.index()]);
            }
        }
        wave_step(chunks, future, starts, k, d, width, height, numerator, denominator, Ghost(f), Ghost(w), Ghost(gw), Ghost(current@), Ghost(done));
        proof {
            done = done.insert(k);
        }
    }
    proof {
        assert forall|k: usize| #[trigger] current@.contains_key(k) implies done.contains(k) by {
            let s = current.iter().remaining();
            assert(s.contains((&k, &current@[k])));
            let m = choose|m: int| 0 <= m < s.len() && s[m] == (&k, &current@[k]);
        }
        lemma_wave_complete(f, w, gw, current@, done, rows(chunks@), future@, shore_dist());
        lemma_starts_complete(f, w, current@, done, rows(chunks@), starts@, numerator, denominator);
    }
}

/// No land cell lies more than 253 layers away from the shore, so that every
/// distance written (at most `k + 2` for layer `k`) fits the grid's byte
/// cells. This is up to one layer stricter than the point where the byte
/// arithmetic itself would overflow; a field that deep sits at the limit of
/// what a byte can hold either way.
pub open spec fn shore_depth_fits(g: Seq<Seq<u8>>, w: int, h: int) -> bool {
    layer_empty(shore_flood(g, w, h), 253)
}

/// Computes the distance field from the shore, in place, by waves from the
/// shore cells: a land cell in the flood's layer `k` (see `shore_flood`)
/// ends at distance `k + 1`, or `k + 2` when the walk of the frontier visited
/// it once more from a neighbour of its own layer (only a cell that started
/// as unvisited land, 255, can be visited again); water keeps 0 and every
/// other cell outside the layers keeps its value. Interior cells at distance
/// above 35 become river starting points with chance 1 in 50 as they are
/// visited (`record_start` with the draw); the returned map keeps the last
/// one chosen in each 10 by 10 bin, under the bin's key.
pub fn shore_distances(chunks: &mut Vec<Vec<u8>>, width: usize, height: usize) -> (starts: HashMap<usize, (usize, usize)>)
    requires
        is_grid(rows(old(chunks)@), width as int, height as int),
        width * height <= usize::MAX,
        shore_depth_fits(rows(old(chunks)@), width as int, height as int),
    ensures
        is_grid(rows(final(chunks)@), width as int, height as int),
        forall|i: int, j: int, k: nat| #[trigger] in_layer(shore_flood(rows(old(chunks)@), width as int, height as int), k, i, j)
            ==> rows(final(chunks)@)[i][j] == k + 1 || rows(final(chunks)@)[i][j] == k + 2,
        forall|i: int, j: int, k: nat| #[trigger] in_layer(shore_flood(rows(old(chunks)@), width as int, height as int), k, i, j)
            && rows(old(chunks)@)[i][j] != 255 ==> rows(final(chunks)@)[i][j] == k + 1,
        forall|i: int, j: int| 0 <= i < width && 0 <= j < height
            && !reached(shore_flood(rows(old(chunks)@), width as int, height as int), 252, i, j)
            ==> #[trigger] rows(final(chunks)@)[i][j] == rows(old(chunks)@)[i][j],
        forall|i: int, j: int| 0 <= i < width && 0 <= j < height && rows(old(chunks)@)[i][j] == 0
            ==> #[trigger] rows(final(chunks)@)[i][j] == 0,
        forall|k: usize| #[trigger] starts@.contains_key(k) ==> {
            let x = starts@[k].0 as int;
            let y = starts@[k].1 as int;
            &&& 0 < x && x + 2 < width
            &&& 0 < y && y + 2 < height
            &&& k == bin_key(x, y, height as int)
            &&& rows(final(chunks)@)[x][y] > 35
            &&& reached(shore_flood(rows(old(chunks)@), width as int, height as int), 252, x, y)
        },
{
    shore_distances_with_chance(chunks, width, height, 1, 50)
}

/// Computes the distance field from the shore, in place, by waves from the
/// shore cells, as `shore_distances` does, where each interior cell at
/// distance above 35 becomes a river starting point, as it is visited, when a
/// draw of chance `numerator / denominator` comes out (`record_start` with the
/// draw). With chance 0 no starting point is chosen; with certainty every 10
/// by 10 bin holding such a cell (reached, interior, final distance above
/// 35) has one.
pub fn shore_distances_with_chance(chunks: &mut Vec<Vec<u8>>, width: usize, height: usize, numerator: u32, denominator: u32) -> (starts: HashMap<usize, (usize, usize)>)
    requires
        is_grid(rows(old(chunks)@), width as int, height as int),
        width * height <= usize::MAX,
        shore_depth_fits(rows(old(chunks)@), width as int, height as int),
        0 < denominator,
        numerator <= denominator,
    ensures
        is_grid(rows(final(chunks)@), width as int, height as int),
        forall|i: int, j: int, k: nat| #[trigger] in_layer(shore_flood(rows(old(chunks)@), width as int, height as int), k, i, j)
            ==> rows(final(chunks)@)[i][j] == k + 1 || rows(final(chunks)@)[i][j] == k + 2,
        forall|i: int, j: int, k: nat| #[trigger] in_layer(shore_flood(rows(old(chunks)@), width as int, height as int), k, i, j)
            && rows(old(chunks)@)[i][j] != 255 ==> rows(final(chunks)@)[i][j] == k + 1,
        forall|i: int, j: int| 0 <= i < width && 0 <= j < height
            && !reached(shore_flood(rows(old(chunks)@), width as int, height as int), 252, i, j)
            ==> #[trigger] rows(final(chunks)@)[i][j] == rows(old(chunks)@)[i][j],
        forall|i: int, j: int| 0 <= i < width && 0 <= j < height && rows(old(chunks)@)[i][j] == 0
            ==> #[trigger] rows(final(chunks)@)[i][j] == 0,
        forall|k: usize| #[trigger] starts@.contains_key(k) ==> {
            let x = starts@[k].0 as int;
            let y = starts@[k].1 as int;
            &&& 0 < x && x + 2 < width
            &&& 0 < y && y + 2 < height
            &&& k == bin_key(x, y, height as int)
            &&& rows(final(chunks)@)[x][y] > 35
            &&& reached(shore_flood(rows(old(chunks)@), width as int, height as int), 252, x, y)
        },
        numerator == 0 ==> starts@ == Map::<usize, (usize, usize)>::empty(),
        numerator == denominator ==> forall|x: int, y: int| 0 < x && x + 2 < width && 0 < y && y + 2 < height
            && reached(shore_flood(rows(old(chunks)@), width as int, height as int), 252, x, y)
            && #[trigger] rows(final(chunks)@)[x][y] > 35
            ==> starts@.contains_key(bin_key(x, y, height as int) as usize),
{
    let ghost g0 = rows(chunks@);
    let ghost f = shore_flood(g0, width as int, height as int);
    let mut current = shore_seeds(chunks, width, height);
    let mut future: HashMap<usize, u8> = HashMap::new();
    let mut starts: HashMap<usize, (usize, usize)> = HashMap::new();
    let ghost mut w: nat = 0;
    proof {
        assert(wave_grid(f, g0, 0, shore_dist()));
        assert(wave_frontier(f, current@, 0, shore_dist()));
    }
    while !current.is_empty()
        invariant
            wave_setting(f, width, height, 0),
            f == shore_flood(g0, width as int, height as int),
            layer_empty(f, 253),
            w <= 254,
            wave_grid(f, rows(chunks@), w, shore_dist()),
            wave_frontier(f, current@, w, shore_dist()),
            valid_starts(f, rows(chunks@), starts@, reached_before(f, w)),
            starts_by_chance(f, rows(chunks@), starts@, reached_before(f, w), numerator, denominator),
            0 < denominator,
            numerator <= denominator,
        decreases 254 - w,
    {
        proof {
            assert(current@.dom().len() != 0);
            assert(current@.dom().finite());
            let k = current@.dom().choose();
            assert(current@.contains_key(k));
            if w == 254 {
                lemma_empty_layers_stay_empty(f, 253, 254);
                lemma_frontier_cell(f, current@, w, shore_dist(), k);
            }
        }
        future.clear();
        shore_wave(chunks, width, height, &current, &mut future, &mut starts, numerator, denominator, Ghost(f), Ghost(w));
        std::mem::swap(&mut current, &mut future);
        proof {
            w = w + 1;
        }
    }
    proof {
        assert(layer_empty(f, w)) by {
            assert forall|x: int, y: int| !#[trigger] in_layer(f, w, x, y) by {
                if in_layer(f, w, x, y) {
                    lemma_cell_key(x, y, width as int, height as int);
                    assert(current@.contains_key(cell_key(x, y, height as int) as usize));
                    assert(current@.dom().contains(cell_key(x, y, height as int) as usize));
                }
            }
        }
        assert forall|i: int, j: int, k: nat| #[trigger] in_layer(f, k, i, j)
            implies rows(chunks@)[i][j] == k + 1 || rows(chunks@)[i][j] == k + 2 by {
            if k >= w {
                lemma_empty_layers_stay_empty(f, w, k);
            }
        }
        assert forall|i: int, j: int, k: nat| #[trigger] in_layer(f, k, i, j) && g0[i][j] != 255
            implies rows(chunks@)[i][j] == k + 1 by {
            if k >= w {
                lemma_empty_layers_stay_empty(f, w, k);
            }
        }
        assert forall|i: int, j: int| 0 <= i < width && 0 <= j < height && !reached(f, 252, i, j)
            implies #[trigger] rows(chunks@)[i][j] == g0[i][j] by {
            if w > 0 && reached(f, (w - 1) as nat, i, j) {
                let l = lemma_reached_layer(f, (w - 1) as nat, i, j);
                if l >= 253 {
                    lemma_empty_layers_stay_empty(f, 253, l);
                } else {
                    lemma_layer_reached(f, l, 252, i, j);
                }
            }
        }
        assert forall|i: int, j: int| 0 <= i < width && 0 <= j < height && g0[i][j] == 0
            implies #[trigger] rows(chunks@)[i][j] == 0 by {
            law_water_is_never_flooded(g0, width as int, height as int, 252, i, j);
        }
        assert forall|k: usize| #[trigger] starts@.contains_key(k)
            implies reached(f, 252, starts@[k].0 as int, starts@[k].1 as int) by {
            let x = starts@[k].0 as int;
            let y = starts@[k].1 as int;
            assert(reached_before(f, w)(x, y));
            let l = lemma_reached_layer(f, (w - 1) as nat, x, y);
            if l >= 253 {
                lemma_empty_layers_stay_empty(f, 253, l);
            } else {
                lemma_layer_reached(f, l, 252, x, y);
            }
        }
        if numerator == denominator {
            assert forall|x: int, y: int| 0 < x && x + 2 < width && 0 < y && y + 2 < height
                && reached(f, 252, x, y) && #[trigger] rows(chunks@)[x][y] > 35
                implies starts@.contains_key(bin_key(x, y, height as int) as usize) by {
                let l = lemma_reached_layer(f, 252, x, y);
                if l >= w {
                    lemma_empty_layers_stay_empty(f, w, l);
                }
                lemma_layer_reached(f, l, (w - 1) as nat, x, y);
                assert(reached_before(f, w)(x, y));
            }
        }
    }
    starts
}

/// The state of the layer-by-layer walk at layer `k`: `frontier` lists
/// exactly the cells of layer `k`, and `visited` marks the cells reached by
/// `k`, plus those listed in `next`.
pub open spec fn walk_state(f: Flood<u8>, k: nat, frontier: Seq<(usize, usize)>, visited: Seq<Seq<bool>>, next: Seq<(usize, usize)>) -> bool {
    &&& is_grid(visited, f.width, f.height)
    &&& forall|m: int| 0 <= m < frontier.len() ==> #[trigger] in_layer(f, k, frontier[m].0 as int, frontier[m].1 as int)
    &&& forall|i: int, j: int| #[trigger] in_layer(f, k, i, j) ==> frontier.contains((i as usize, j as usize))
    &&& forall|m: int| 0 <= m < next.len() ==> #[trigger] in_layer(f, k + 1, next[m].0 as int, next[m].1 as int)
    &&& forall|i: int, j: int| 0 <= i < f.width && 0 <= j < f.height ==>
        (#[trigger] visited[i][j] <==> (reached(f, k, i, j) || next.contains((i as usize, j as usize))))
}

/// Marks the cell `(x, y)` of layer `k + 1` candidates: when it is unvisited
/// land it is marked visited and listed in `next`.
fn walk_visit(
    chunks: &Vec<Vec<u8>>,
    visited: &mut Vec<Vec<bool>>,
    next: &mut Vec<(usize, usize)>,
    x: usize,
    y: usize,
    width: usize,
    height: usize,
    Ghost(f): Ghost<Flood<u8>>,
    Ghost(k): Ghost<nat>,
    Ghost(frontier): Ghost<Seq<(usize, usize)>>,
    Ghost(px): Ghost<int>,
    Ghost(py): Ghost<int>,
)
    requires
        f.width == width,
        f.height == height,
        f.open == 255,
        f.cells == rows(chunks@),
        is_grid(rows(chunks@), width as int, height as int),
        walk_state(f, k, frontier, rows(old(visited)@), old(next)@),
        in_layer(f, k, px, py),
        adjacent(px, py, x as int, y as int),
        x < width,
        y < height,
    ensures
        walk_state(f, k, frontier, rows(final(visited)@), final(next)@),
        forall|m: int| 0 <= m < old(next)@.len() ==> #[trigger] final(next)@.contains(old(next)@[m]),
        in_layer(f, k + 1, x as int, y as int) ==> final(next)@.contains((x, y)),
{
    assert(chunks@[x as int]@ == rows(chunks@)[x as int]);
    assert(visited@[x as int]@ == rows(visited@)[x as int]);
    let ghost n0 = next@;
    let ghost v0 = rows(visited@);
    if chunks[x][y] == 255 && !visited[x][y] {
        proof {
            if !reached(f, k, x as int, y as int) {
                lemma_open_neighbour(f, k, px, py, x as int, y as int);
                if in_layer(f, k, x as int, y as int) {
                    lemma_layer_reached(f, k, k, x as int, y as int);
                }
            }
        }
        set_cell(visited, x, y, true);
        next.push((x, y));
        proof {
            lemma_with_cell_keeps_shape(v0, x as int, y as int, true, width as int, height as int);
            assert(next@[n0.len() as int] == (x, y));
            assert forall|m: int| 0 <= m < n0.len() implies #[trigger] next@.contains(n0[m]) by {
                assert(next@[m] == n0[m]);
            }
            assert forall|i: int, j: int| 0 <= i < f.width && 0 <= j < f.height implies
                (#[trigger] rows(visited@)[i][j] <==> (reached(f, k, i, j) || next@.contains((i as usize, j as usize)))) by {
                if next@.contains((i as usize, j as usize)) && !n0.contains((i as usize, j as usize)) {
                    let m = choose|m: int| 0 <= m < next@.len() && next@[m] == (i as usize, j as usize);
                    if m < n0.len() {
                        assert(n0[m] == next@[m]);
                    }
                }
                if n0.contains((i as usize, j as usize)) {
                    let m = choose|m: int| 0 <= m < n0.len() && n0[m] == (i as usize, j as usize);
                    assert(next@[m] == n0[m]);
                }
            }
        }
    } else {
        proof {
            if in_layer(f, k + 1, x as int, y as int) {
                assert(!reached(f, k, x as int, y as int));
                assert(v0[x as int][y as int]);
            }
        }
    }
}

/// Whether no land cell lies in layer 253 of the flood from the shore,
/// computed by walking the layers one by one.
pub fn shore_depth_within_limit(chunks: &Vec<Vec<u8>>, width: usize, height: usize) -> (ok: bool)
    requires
        is_grid(rows(chunks@), width as int, height as int),
    ensures
        ok == shore_depth_fits(rows(chunks@), width as int, height as int),
{
    let ghost f = shore_flood(rows(chunks@), width as int, height as int);
    let mut visited: Vec<Vec<bool>> = crate::grid::filled_grid(width, height, false);
    let mut frontier: Vec<(usize, usize)> = Vec::new();
    let mut x: usize = 0;
    while x < width
        invariant
            x <= width,
            f == shore_flood(rows(chunks@), width as int, height as int),
            is_grid(rows(chunks@), width as int, height as int),
            is_grid(rows(visited@), width as int, height as int),
            forall|m: int| 0 <= m < frontier@.len() ==> #[trigger] in_layer(f, 0, frontier@[m].0 as int, frontier@[m].1 as int),
            forall|i: int, j: int| #[trigger] in_layer(f, 0, i, j) && i < x ==> frontier@.contains((i as usize, j as usize)),
            forall|i: int, j: int| 0 <= i < width && 0 <= j < height ==>
                (#[trigger] rows(visited@)[i][j] <==> (in_layer(f, 0, i, j) && i < x)),
        decreases width - x,
    {
        let mut y: usize = 0;
        while y < height
            invariant
                x < width,
                y <= height,
                f == shore_flood(rows(chunks@), width as int, height as int),
                is_grid(rows(chunks@), width as int, height as int),
                is_grid(rows(visited@), width as int, height as int),
                forall|m: int| 0 <= m < frontier@.len() ==> #[trigger] in_layer(f, 0, frontier@[m].0 as int, frontier@[m].1 as int),
                forall|i: int, j: int| #[trigger] in_layer(f, 0, i, j) && (i < x || (i == x && j < y))
                    ==> frontier@.contains((i as usize, j as usize)),
                forall|i: int, j: int| 0 <= i < width && 0 <= j < height ==>
                    (#[trigger] rows(visited@)[i][j] <==> (in_layer(f, 0, i, j) && (i < x || (i == x && j < y)))),
            decreases height - y,
        {
            let ghost g = rows(chunks@);
            assert(forall|i: int| 0 <= i < width ==> (#[trigger] chunks@[i])@ == g[i]);
            assert(g[x as int].len() == height);
            if x > 0 { assert(g[x - 1].len() == height); }
            if x < width - 1 { assert(g[x + 1].len() == height); }
            let ghost fr0 = frontier@;
            let ghost v0 = rows(visited@);
            if chunks[x][y] != 0 {
                let water = (x > 0 && chunks[x - 1][y] == 0) || (y > 0 && chunks[x][y - 1] == 0)
                    || (x < width - 1 && chunks[x + 1][y] == 0) || (y < height - 1 && chunks[x][y + 1] == 0);
                if water {
                    assert(in_layer(f, 0, x as int, y as int));
                    assert(visited@[x as int]@ == rows(visited@)[x as int]);
                    set_cell(&mut visited, x, y, true);
                    frontier.push((x, y));
                    proof {
                        lemma_with_cell_keeps_shape(v0, x as int, y as int, true, width as int, height as int);
                        assert(frontier@[fr0.len() as int] == (x, y));
                        assert forall|i: int, j: int| #[trigger] in_layer(f, 0, i, j) && (i < x || (i == x && j < y + 1))
                            implies frontier@.contains((i as usize, j as usize)) by {
                            if i != x || j != y {
                                let m = choose|m: int| 0 <= m < fr0.len() && fr0[m] == (i as usize, j as usize);
                                assert(frontier@[m] == fr0[m]);
                            }
                        }
                    }
                }
            }
            y = y + 1;
        }
        x = x + 1;
    }
    let mut k: usize = 0;
    while k < 253
        invariant
            k <= 253,
            f == shore_flood(rows(chunks@), width as int, height as int),
            is_grid(rows(chunks@), width as int, height as int),
            walk_state(f, k as nat, frontier@, rows(visited@), Seq::empty()),
        decreases 253 - k,
    {
        let mut next: Vec<(usize, usize)> = Vec::new();
        let mut m: usize = 0;
        while m < frontier.len()
            invariant
                k < 253,
                m <= frontier@.len(),
                f == shore_flood(rows(chunks@), width as int, height as int),
                is_grid(rows(chunks@), width as int, height as int),
                walk_state(f, k as nat, frontier@, rows(visited@), next@),
                forall|i: int, j: int, pi: int, pj: int|
                    #[trigger] in_layer(f, k as nat + 1, i, j) && #[trigger] in_layer(f, k as nat, pi, pj) && adjacent(pi, pj, i, j)
                    && (exists|q: int| 0 <= q < m && frontier@[q] == (pi as usize, pj as usize))
                    ==> next@.contains((i as usize, j as usize)),
            decreases frontier@.len() - m,
        {
            let (px, py) = frontier[m];
            assert(in_layer(f, k as nat, px as int, py as int));
            let ghost n0 = next@;
            if px > 0 {
                walk_visit(chunks, &mut visited, &mut next, px - 1, py, width, height, Ghost(f), Ghost(k as nat), Ghost(frontier@), Ghost(px as int), Ghost(py as int));
            }
            let ghost n1 = next@;
            if py > 0 {
                walk_visit(chunks, &mut visited, &mut next, px, py - 1, width, height, Ghost(f), Ghost(k as nat), Ghost(frontier@), Ghost(px as int), Ghost(py as int));
            }
            let ghost n2 = next@;
            if px < width - 1 {
                walk_visit(chunks, &mut visited, &mut next, px + 1, py, width, height, Ghost(f), Ghost(k as nat), Ghost(frontier@), Ghost(px as int), Ghost(py as int));
            }
            let ghost n3 = next@;
            if py < height - 1 {
                walk_visit(chunks, &mut visited, &mut next, px, py + 1, width, height, Ghost(f), Ghost(k as nat), Ghost(frontier@), Ghost(px as int), Ghost(py as int));
            }
            proof {
                assert forall|i: int, j: int, pi: int, pj: int|
                    #[trigger] in_layer(f, k as nat + 1, i, j) && #[trigger] in_layer(f, k as nat, pi, pj) && adjacent(pi, pj, i, j)
                    && (exists|q: int| 0 <= q < m + 1 && frontier@[q] == (pi as usize, pj as usize))
                    implies next@.contains((i as usize, j as usize)) by {
                    let q = choose|q: int| 0 <= q < m + 1 && frontier@[q] == (pi as usize, pj as usize);
                    let c = (i as usize, j as usize);
                    if q < m {
                        let a = choose|a: int| 0 <= a < n0.len() && n0[a] == c;
                        assert(n1.contains(n0[a]));
                        let b = choose|b: int| 0 <= b < n1.len() && n1[b] == c;
                        assert(n2.contains(n1[b]));
                        let b2 = choose|b: int| 0 <= b < n2.len() && n2[b] == c;
                        assert(n3.contains(n2[b2]));
                        let b3 = choose|b: int| 0 <= b < n3.len() && n3[b] == c;
                        assert(next@.contains(n3[b3]));
                    } else {
                        assert(pi == px && pj == py);
                        if i == px - 1 {
                            let b = choose|b: int| 0 <= b < n1.len() && n1[b] == c;
                            assert(n2.contains(n1[b]));
                            let b2 = choose|b: int| 0 <= b < n2.len() && n2[b] == c;
                            assert(n3.contains(n2[b2]));
                            let b3 = choose|b: int| 0 <= b < n3.len() && n3[b] == c;
                            assert(next@.contains(n3[b3]));
                        } else if j == py - 1 {
                            let b2 = choose|b: int| 0 <= b < n2.len() && n2[b] == c;
                            assert(n3.contains(n2[b2]));
                            let b3 = choose|b: int| 0 <= b < n3.len() && n3[b] == c;
                            assert(next@.contains(n3[b3]));
                        } else if i == px + 1 {
                            let b3 = choose|b: int| 0 <= b < n3.len() && n3[b] == c;
                            assert(next@.contains(n3[b3]));
                        }
                    }
                }
            }
            m = m + 1;
        }
        proof {
            let k1 = (k + 1) as nat;
            assert forall|i: int, j: int| #[trigger] in_layer(f, k1, i, j) implies next@.contains((i as usize, j as usize)) by {
                let p = lemma_layer_has_parent(f, k as nat, i, j);
                let q = choose|q: int| 0 <= q < frontier@.len() && frontier@[q] == (p.0 as usize, p.1 as usize);
                assert(frontier@[q] == (p.0 as usize, p.1 as usize));
            }
            assert forall|i: int, j: int| 0 <= i < f.width && 0 <= j < f.height implies
                (#[trigger] rows(visited@)[i][j] <==> (reached(f, k1, i, j) || Seq::<(usize, usize)>::empty().contains((i as usize, j as usize)))) by {
                assert(reached(f, k1, i, j) == (in_layer(f, k1, i, j) || reached(f, k as nat, i, j)));
                if next@.contains((i as usize, j as usize)) {
                    let q = choose|q: int| 0 <= q < next@.len() && next@[q] == (i as usize, j as usize);
                    assert(in_layer(f, k1, next@[q].0 as int, next@[q].1 as int));
                }
                if in_layer(f, k1, i, j) {
                    assert(next@.contains((i as usize, j as usize)));
                }
            }
        }
        frontier = next;
        k = k + 1;
    }
    proof {
        if frontier@.len() > 0 {
            assert(in_layer(f, 253, frontier@[0].0 as int, frontier@[0].1 as int));
        } else {
            assert forall|i: int, j: int| !#[trigger] in_layer(f, 253, i, j) by {
                if in_layer(f, 253, i, j) {
                    assert(frontier@.contains((i as usize, j as usize)));
                }
            }
        }
    }
    frontier.len() == 0
}

/// Water never lies in a layer of the flood from the shore.
pub proof fn law_water_is_never_flooded(g: Seq<Seq<u8>>, w: int, h: int, k: nat, x: int, y: int)
    requires
        g[x][y] == 0,
    ensures
        !in_layer(shore_flood(g, w, h), k, x, y),
        !reached(shore_flood(g, w, h), k, x, y),
    decreases k,
{
    assert(!in_layer(shore_flood(g, w, h), k, x, y));
    if k > 0 {
        law_water_is_never_flooded(g, w, h, (k - 1) as nat, x, y);
    }
}

/// Two starting points in the same 10 by 10 bin are the same entry of the
/// map that `shore_distances` returns.
pub proof fn law_one_start_per_bin(starts: Map<usize, (usize, usize)>, h: int, k1: usize, k2: usize)
    requires
        forall|k: usize| #[trigger] starts.contains_key(k) ==> k == bin_key(starts[k].0 as int, starts[k].1 as int, h),
        starts.contains_key(k1),
        starts.contains_key(k2),
        bin_key(starts[k1].0 as int, starts[k1].1 as int, h) == bin_key(starts[k2].0 as int, starts[k2].1 as int, h),
    ensures
        k1 == k2,
{
}

} // verus!
