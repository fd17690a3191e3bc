use vstd::prelude::*;
use std::collections::HashMap;
use vstd::std_specs::iter::IteratorSpec;
use crate::grid::{rows, is_grid, set_cell};
use crate::flood::{Flood, in_layer, reached, layer_empty, adjacent, cell_key, lemma_layer_reached, lemma_reached_layer, lemma_empty_layers_stay_empty, lemma_cell_key, count_cells, lemma_count_cells_mono};
use crate::wave::{wave_dims, dist_not_open, wave_grid, wave_frontier, grid_during_wave, future_ok, done_ok, wave_state, lemma_frontier_cell, lemma_visit_target, lemma_cell_processed, lemma_children_visited, lemma_wave_complete};

verus! {

broadcast use vstd::std_specs::hash::group_hash_axioms;

/// The distance given to the river flood's layer `k`: `k + 1`, at most 255.
pub open spec fn level(k: nat) -> int {
    if k + 1 < 255 { k + 1 as int } else { 255 }
}

/// The value a cell of the river distance field starts with: 1 on a land
/// river cell, 9999 on water, 0 on land away from rivers.
pub open spec fn mask_value(land: u8, river: bool) -> usize {
    if river && land > 0 { 1 } else if land == 0 { 9999 } else { 0 }
}

/// The flood from the river cells over land not yet measured (0).
pub open spec fn river_flood(dst: Seq<Seq<usize>>, land: Seq<Seq<u8>>, w: int, h: int) -> Flood<usize> {
    Flood {
        cells: dst,
        open: 0usize,
        seed: |x: int, y: int| 0 <= x < w && 0 <= y < h && dst[x][y] == 1 && land[x][y] != 0,
        width: w,
        height: h,
    }
}

/// The distance the river waves write for the flood's layer `k`.
pub open spec fn river_dist() -> spec_fn(nat) -> usize {
    |k: nat| level(k) as usize
}

/// The facts about the grid shared by every step of a wave.
pub open spec fn wave_setting(f: Flood<usize>, width: usize, height: usize, w: nat) -> bool {
    &&& f.width == width
    &&& f.height == height
    &&& f.open == 0
    &&& wave_dims(f)
    &&& dist_not_open(f, river_dist(), w)
}

/// Adds the cell `(x, y)` to the next frontier when it is still unmeasured
/// land, at distance `d + 1` capped by the distance already proposed for it
/// (255 when none is).
fn visit_cell(dst: &Vec<Vec<usize>>, future: &mut HashMap<usize, usize>, x: usize, y: usize, width: usize, height: usize, d: usize)
    requires
        is_grid(rows(dst@), width as int, height as int),
        x < width,
        y < height,
        width * height <= usize::MAX,
        d <= 255,
    ensures
        rows(dst@)[x as int][y as int] == 0 ==> final(future)@ == old(future)@.insert(
            cell_key(x as int, y as int, height as int) as usize,
            if old(future)@.contains_key(cell_key(x as int, y as int, height as int) as usize) {
                if d + 1 < old(future)@[cell_key(x as int, y as int, height as int) as usize] { (d + 1) as usize }
                else { old(future)@[cell_key(x as int, y as int, height as int) as usize] }
            } else if d + 1 < 255 { (d + 1) as usize } else { 255usize },
        ),
        rows(dst@)[x as int][y as int] != 0 ==> final(future)@ == old(future)@,
{
    assert(dst@[x as int]@ == rows(dst@)[x as int]);
    if dst[x][y] == 0 {
        proof {
            lemma_cell_key(x as int, y as int, width as int, height as int);
        }
        let key = x * height + y;
        let existing = match future.get(&key) {
            Some(v) => *v,
            None => 255usize,
        };
        let next = if d + 1 < existing { d + 1 } else { existing };
        future.insert(key, next);
    }
}

/// Adds the neighbour `(x, y)` of the processed cell `(px, py)` to the next
/// frontier when it is still unmeasured land.
fn wave_visit(
    chunks: &Vec<Vec<usize>>,
    future: &mut HashMap<usize, usize>,
    x: usize,
    y: usize,
    width: usize,
    height: usize,
    d: usize,
    Ghost(f): Ghost<Flood<usize>>,
    Ghost(w): Ghost<nat>,
    Ghost(gw): Ghost<Seq<Seq<usize>>>,
    Ghost(current): Ghost<Map<usize, usize>>,
    Ghost(done): Ghost<Set<usize>>,
    Ghost(px): Ghost<int>,
    Ghost(py): Ghost<int>,
)
    requires
        wave_setting(f, width, height, w),
        wave_grid(f, gw, w, river_dist()),
        wave_frontier(f, current, w, river_dist()),
        done_ok(current, done),
        grid_during_wave(f, rows(chunks@), gw, done, w, river_dist()),
        future_ok(f, old(future)@, w, river_dist()),
        in_layer(f, w, px, py) || (w > 0 && in_layer(f, (w - 1) as nat, px, py)),
        adjacent(px, py, x as int, y as int),
        x < width,
        y < height,
        d == level(w),
    ensures
        future_ok(f, final(future)@, w, river_dist()),
        forall|k: usize| old(future)@.contains_key(k) ==> #[trigger] final(future)@.contains_key(k),
        in_layer(f, w + 1, x as int, y as int) ==> final(future)@.contains_key(cell_key(x as int, y as int, height as int) as usize),
{
    proof {
        lemma_visit_target(f, rows(chunks@), gw, current, done, w, river_dist(), px, py, x as int, y as int);
    }
    visit_cell(chunks, future, x, y, width, height, d);
}

/// Processes the frontier cell with key `k` at distance `d`.
fn wave_step(
    dst: &mut Vec<Vec<usize>>,
    future: &mut HashMap<usize, usize>,
    k: usize,
    d: usize,
    width: usize,
    height: usize,
    Ghost(f): Ghost<Flood<usize>>,
    Ghost(w): Ghost<nat>,
    Ghost(gw): Ghost<Seq<Seq<usize>>>,
    Ghost(current): Ghost<Map<usize, usize>>,
    Ghost(done): Ghost<Set<usize>>,
)
    requires
        wave_setting(f, width, height, w),
        wave_state(f, w, gw, current, done, rows(old(dst)@), old(future)@, river_dist()),
        current.contains_key(k),
        current[k] == d,
        !done.contains(k),
    ensures
        wave_state(f, w, gw, current, done.insert(k), rows(final(dst)@), final(future)@, river_dist()),
{
    proof {
        lemma_frontier_cell(f, current, w, river_dist(), k);
    }
    let x = k / height;
    let y = k % height;
    let ghost done2 = done.insert(k);
    let ghost before = rows(dst@);
    assert(dst@[x as int]@ == before[x as int]);
    set_cell(dst, x, y, d);
    proof {
        lemma_cell_processed(f, before, gw, current, done, w, river_dist(), k, x as int, y as int);
    }
    let ghost fut0 = future@;
    if x > 0 {
        wave_visit(dst, future, x - 1, y, width, height, d, Ghost(f), Ghost(w), Ghost(gw), Ghost(current), Ghost(done2), Ghost(x as int), Ghost(y as int));
    }
    let ghost fut1 = future@;
    if y > 0 {
        wave_visit(dst, future, x, y - 1, width, height, d, Ghost(f), Ghost(w), Ghost(gw), Ghost(current), Ghost(done2), Ghost(x as int), Ghost(y as int));
    }
    let ghost fut2 = future@;
    if x < width - 1 {
        wave_visit(dst, future, x + 1, y, width, height, d, Ghost(f), Ghost(w), Ghost(gw), Ghost(current), Ghost(done2), Ghost(x as int), Ghost(y as int));
    }
    let ghost fut3 = future@;
    if y < height - 1 {
        wave_visit(dst, future, x, y + 1, width, height, d, Ghost(f), Ghost(w), Ghost(gw), Ghost(current), Ghost(done2), Ghost(x as int), Ghost(y as int));
    }
    proof {
        lemma_children_visited(f, w, done, x as int, y as int, fut0, fut1, fut2, fut3, future@);
    }
}

/// Processes one wave of the river flood: every frontier cell takes its
/// distance and passes the next distance to its unmeasured land neighbours.
fn river_wave(
    dst: &mut Vec<Vec<usize>>,
    width: usize,
    height: usize,
    current: &HashMap<usize, usize>,
    future: &mut HashMap<usize, usize>,
    Ghost(f): Ghost<Flood<usize>>,
    Ghost(w): Ghost<nat>,
)
    requires
        wave_setting(f, width, height, w),
        wave_grid(f, rows(old(dst)@), w, river_dist()),
        wave_frontier(f, current@, w, river_dist()),
        old(future)@ == Map::<usize, usize>::empty(),
    ensures
        wave_grid(f, rows(final(dst)@), w + 1, river_dist()),
        wave_frontier(f, final(future)@, w + 1, river_dist()),
{
    let ghost gw = rows(dst@);
    let ghost mut done: Set<usize> = Set::empty();
    for (key, dist) in it: current.iter()
        invariant
            it.seq() == current.iter().remaining(),
            it.seq().no_duplicates(),
            wave_setting(f, width, height, w),
            wave_state(f, w, gw, current@, done, rows(dst@), future@, river_dist()),
            forall|m: int| 0 <= m < it.index() ==> done.contains(*it.seq()[m].0),
            forall|k: usize| #[trigger] done.contains(k) ==> exists|m: int| 0 <= m < it.index() && *it.seq()[m].0 == k,
    {
        let k = *key;
        let d = *dist;
        assert(current@.contains_key(k) && current@[k] == d) by {
            let s = current.iter().remaining();
            assert(s[it.index()] == (key, dist));
        }
        assert(!done.contains(k)) by {
            if done.contains(k) {
                let m = choose|m: int| 0 <= m < it.index() && *it.seq()[m].0 == k;
                let s = current.iter().remaining();
                assert(*s[m].1 == current@[k]);
                assert(s[m] == s[it.index()]);
            }
        }
        wave_step(dst, future, k, d, width, height, Ghost(f), Ghost(w), Ghost(gw), Ghost(current@), Ghost(done));
        proof {
            done = done.insert(k);
        }
    }
    proof {
        assert forall|k: usize| #[trigger] current@.contains_key(k) implies done.contains(k) by {
            let s = current.iter().remaining();
            assert(s.contains((&k, &current@[k])));
            let m = choose|m: int| 0 <= m < s.len() && s[m] == (&k, &current@[k]);
        }
        lemma_wave_complete(f, w, gw, current@, done, rows(dst@), future@, river_dist());
    }
}

/// `(x, y)` lies in some layer of the flood.
pub open spec fn flooded<T>(f: Flood<T>, x: int, y: int) -> bool {
    exists|k: nat| #[trigger] in_layer(f, k, x, y)
}

/// Builds the starting grid of the river distance field: `mask_value` of each
/// cell's land value and river presence.
pub fn river_mask(chunks: &Vec<Vec<u8>>, rivers: &Vec<Vec<bool>>, width: usize, height: usize) -> (dst: Vec<Vec<usize>>)
    requires
        is_grid(rows(chunks@), width as int, height as int),
        is_grid(rows(rivers@), width as int, height as int),
    ensures
        is_grid(rows(dst@), width as int, height as int),
        forall|x: int, y: int| 0 <= x < width && 0 <= y < height ==>
            #[trigger] rows(dst@)[x][y] == mask_value(rows(chunks@)[x][y], rows(rivers@)[x][y]),
        forall|x: int, y: int| 0 <= x < width && 0 <= y < height ==>
            #[trigger] rows(dst@)[x][y] == if rows(chunks@)[x][y] == 0 { 9999 } else if rows(rivers@)[x][y] { 1usize } else { 0 },
{
    let mut dst: Vec<Vec<usize>> = Vec::new();
    let mut x: usize = 0;
    while x < width
        invariant
            x <= width,
            is_grid(rows(chunks@), width as int, height as int),
            is_grid(rows(rivers@), width as int, height as int),
            dst@.len() == x,
            forall|i: int| 0 <= i < x ==> (#[trigger] dst@[i])@.len() == height,
            forall|i: int, j: int| 0 <= i < x && 0 <= j < height ==>
                #[trigger] dst@[i]@[j] == mask_value(rows(chunks@)[i][j], rows(rivers@)[i][j]),
        decreases width - x,
    {
        let mut column: Vec<usize> = Vec::new();
        let mut y: usize = 0;
        assert(chunks@[x as int]@ == rows(chunks@)[x as int]);
        assert(rivers@[x as int]@ == rows(rivers@)[x as int]);
        while y < height
            invariant
                x < width,
                y <= height,
                is_grid(rows(chunks@), width as int, height as int),
                is_grid(rows(rivers@), width as int, height as int),
                chunks@[x as int]@ == rows(chunks@)[x as int],
                rivers@[x as int]@ == rows(rivers@)[x as int],
                column@.len() == y,
                forall|j: int| 0 <= j < y ==> #[trigger] column@[j] == mask_value(rows(chunks@)[x as int][j], rows(rivers@)[x as int][j]),
            decreases height - y,
        {
            let land = chunks[x][y];
            let v = if rivers[x][y] && land > 0 {
                1
            } else if land == 0 {
                9999
            } else {
                0
            };
            column.push(v);
            y = y + 1;
        }
        dst.push(column);
        proof {
            assert forall|i: int, j: int| 0 <= i < x + 1 && 0 <= j < height implies
                #[trigger] dst@[i]@[j] == mask_value(rows(chunks@)[i][j], rows(rivers@)[i][j]) by {
                if i == x {
                    assert(dst@[i] == column);
                }
            }
        }
        x = x + 1;
    }
    proof {
        assert forall|i: int| 0 <= i < width implies #[trigger] rows(dst@)[i].len() == height by {
            assert(rows(dst@)[i] == dst@[i]@);
        }
        assert forall|i: int, j: int| 0 <= i < width && 0 <= j < height implies
            #[trigger] rows(dst@)[i][j] == mask_value(rows(chunks@)[i][j], rows(rivers@)[i][j]) by {
            assert(rows(dst@)[i] == dst@[i]@);
        }
    }
    dst
}

/// Collects the river cells on land, each at distance 1.
fn river_seeds(dst: &Vec<Vec<usize>>, chunks: &Vec<Vec<u8>>, width: usize, height: usize) -> (seeds: HashMap<usize, usize>)
    requires
        is_grid(rows(dst@), width as int, height as int),
        is_grid(rows(chunks@), width as int, height as int),
        width * height <= usize::MAX,
    ensures
        wave_frontier(river_flood(rows(dst@), rows(chunks@), width as int, height as int), seeds@, 0, river_dist()),
{
    let ghost f = river_flood(rows(dst@), rows(chunks@), width as int, height as int);
    let mut seeds: HashMap<usize, usize> = HashMap::new();
    let mut x: usize = 0;
    while x < width
        invariant
            x <= width,
            f == river_flood(rows(dst@), rows(chunks@), width as int, height as int),
            is_grid(rows(dst@), width as int, height as int),
            is_grid(rows(chunks@), width as int, height as int),
            width * height <= usize::MAX,
            forall|k: usize| #[trigger] seeds@.contains_key(k) ==> {
                &&& k < width * height
                &&& in_layer(f, 0, k as int / height as int, k as int % height as int)
                &&& seeds@[k] == 1
            },
            forall|i: int, j: int| #[trigger] in_layer(f, 0, i, j) && i < x
                ==> seeds@.contains_key(cell_key(i, j, height as int) as usize),
        decreases width - x,
    {
        let mut y: usize = 0;
        assert(chunks@[x as int]@ == rows(chunks@)[x as int]);
        assert(dst@[x as int]@ == rows(dst@)[x as int]);
        while y < height
            invariant
                x < width,
                y <= height,
                f == river_flood(rows(dst@), rows(chunks@), width as int, height as int),
                is_grid(rows(dst@), width as int, height as int),
                is_grid(rows(chunks@), width as int, height as int),
                chunks@[x as int]@ == rows(chunks@)[x as int],
                dst@[x as int]@ == rows(dst@)[x as int],
                width * height <= usize::MAX,
                forall|k: usize| #[trigger] seeds@.contains_key(k) ==> {
                    &&& k < width * height
                    &&& in_layer(f, 0, k as int / height as int, k as int % height as int)
                    &&& seeds@[k] == 1
                },
                forall|i: int, j: int| #[trigger] in_layer(f, 0, i, j) && (i < x || (i == x && j < y))
                    ==> seeds@.contains_key(cell_key(i, j, height as int) as usize),
            decreases height - y,
        {
            if dst[x][y] == 1 && chunks[x][y] != 0 {
                proof {
                    lemma_cell_key(x as int, y as int, width as int, height as int);
                }
                let key = x * height + y;
                seeds.insert(key, 1usize);
                assert(in_layer(f, 0, x as int, y as int));
            }
            y = y + 1;
        }
        x = x + 1;
    }
    seeds
}

/// Cells still unmeasured land in the first grid and reached by no layer
/// before wave `w`.
pub open spec fn unmeasured(f: Flood<usize>, w: nat) -> spec_fn(int, int) -> bool {
    |x: int, y: int| f.cells[x][y] == 0 && !(w > 0 && reached(f, (w - 1) as nat, x, y))
}

/// What decreases from one wave of the river flood to the next.
pub open spec fn river_measure(f: Flood<usize>, w: nat, current: Map<usize, usize>) -> int {
    2 * count_cells(unmeasured(f, w), f.width, f.height)
        + (if current.dom().len() > 0 { 1int } else { 0 })
        + (if layer_empty(f, w) { 0int } else { 1 })
        + (if w == 0 { 2int } else { 0 })
}

/// Computes, in place, the distance from the rivers over land: starting from
/// the river cells on land (1 and land), waves pass to unmeasured land cells
/// (0). A cell in the flood's layer `k` (see `river_flood`) ends at
/// `level(k)` or, when the walk of the frontier visited it once more from a
/// neighbour of its own layer, `level(k + 1)`; a cell of a layer that did
/// not start unmeasured (the river cells) ends at exactly `level(k)`; every
/// other cell keeps its value.
pub fn river_distances(dst: &mut Vec<Vec<usize>>, chunks: &Vec<Vec<u8>>, width: usize, height: usize)
    requires
        is_grid(rows(old(dst)@), width as int, height as int),
        is_grid(rows(chunks@), width as int, height as int),
        width * height <= usize::MAX,
    ensures
        is_grid(rows(final(dst)@), width as int, height as int),
        forall|i: int, j: int, k: nat| #[trigger] in_layer(river_flood(rows(old(dst)@), rows(chunks@), width as int, height as int), k, i, j)
            ==> rows(final(dst)@)[i][j] == level(k) || rows(final(dst)@)[i][j] == level(k + 1),
        forall|i: int, j: int, k: nat| #[trigger] in_layer(river_flood(rows(old(dst)@), rows(chunks@), width as int, height as int), k, i, j)
            && rows(old(dst)@)[i][j] != 0 ==> rows(final(dst)@)[i][j] == level(k),
        forall|i: int, j: int| 0 <= i < width && 0 <= j < height && rows(old(dst)@)[i][j] == 1 && rows(chunks@)[i][j] != 0
            ==> #[trigger] rows(final(dst)@)[i][j] == 1,
        forall|i: int, j: int| 0 <= i < width && 0 <= j < height
            && !flooded(river_flood(rows(old(dst)@), rows(chunks@), width as int, height as int), i, j)
            ==> #[trigger] rows(final(dst)@)[i][j] == rows(old(dst)@)[i][j],
{
    let ghost f = river_flood(rows(dst@), rows(chunks@), width as int, height as int);
    let mut current = river_seeds(dst, chunks, width, height);
    let mut future: HashMap<usize, usize> = HashMap::new();
    let ghost mut w: nat = 0;
    while !current.is_empty()
        invariant
            wave_setting(f, width, height, w),
            wave_grid(f, rows(dst@), w, river_dist()),
            wave_frontier(f, current@, w, river_dist()),
        decreases river_measure(f, w, current@),
    {
        let ghost m0 = river_measure(f, w, current@);
        let ghost c0 = count_cells(unmeasured(f, w), f.width, f.height);
        future.clear();
        river_wave(dst, width, height, &current, &mut future, Ghost(f), Ghost(w));
        std::mem::swap(&mut current, &mut future);
        proof {
            let p1 = unmeasured(f, w + 1);
            let p0 = unmeasured(f, w);
            assert forall|i: int, j: int| #[trigger] p1(i, j) implies p0(i, j) by {
                if w > 0 && reached(f, (w - 1) as nat, i, j) {
                    assert(reached(f, w, i, j));
                }
            }
            if w > 0 && !layer_empty(f, w) {
                let (x, y) = choose|x: int, y: int| #[trigger] in_layer(f, w, x, y);
                lemma_layer_reached(f, w, w, x, y);
                lemma_count_cells_mono(p1, p0, f.width, f.height, x, y);
            } else {
                lemma_count_cells_mono(p1, p0, f.width, f.height, 0, 0);
            }
            if w > 0 && layer_empty(f, w) {
                lemma_empty_layers_stay_empty(f, w, w + 1);
                if current@.dom().len() > 0 {
                    let k = current@.dom().choose();
                    assert(current@.contains_key(k));
                }
            }
            w = w + 1;
        }
    }
    proof {
        assert(layer_empty(f, w)) by {
            assert forall|x: int, y: int| !#[trigger] in_layer(f, w, x, y) by {
                if in_layer(f, w, x, y) {
                    lemma_cell_key(x, y, width as int, height as int);
                    assert(current@.dom().contains(cell_key(x, y, height as int) as usize));
                }
            }
        }
        assert forall|i: int, j: int, k: nat| #[trigger] in_layer(f, k, i, j)
            implies rows(dst@)[i][j] == level(k) || rows(dst@)[i][j] == level(k + 1) by {
            if k >= w {
                lemma_empty_layers_stay_empty(f, w, k);
            }
        }
        assert forall|i: int, j: int, k: nat| #[trigger] in_layer(f, k, i, j) && f.cells[i][j] != 0
            implies rows(dst@)[i][j] == level(k) by {
            if k >= w {
                lemma_empty_layers_stay_empty(f, w, k);
            }
        }
        assert forall|i: int, j: int| 0 <= i < width && 0 <= j < height && f.cells[i][j] == 1 && rows(chunks@)[i][j] != 0
            implies #[trigger] rows(dst@)[i][j] == 1 by {
            assert(in_layer(f, 0, i, j));
        }
        assert forall|i: int, j: int| 0 <= i < width && 0 <= j < height && !flooded(f, i, j)
            implies #[trigger] rows(dst@)[i][j] == f.cells[i][j] by {
            if w > 0 && reached(f, (w - 1) as nat, i, j) {
                let l = lemma_reached_layer(f, (w - 1) as nat, i, j);
            }
        }
    }
}

/// The starting grid of the river distance field for the given land and
/// river presence grids.
pub open spec fn mask_grid(land: Seq<Seq<u8>>, rivers: Seq<Seq<bool>>, w: int, h: int) -> Seq<Seq<usize>> {
    Seq::new(w as nat, |x: int| Seq::new(h as nat, |y: int| mask_value(land[x][y], rivers[x][y])))
}

/// The distance from the rivers over land: `river_mask` of the land and
/// river grids, then `river_distances` over it.
pub fn river_distance_field(chunks: &Vec<Vec<u8>>, rivers: &Vec<Vec<bool>>, width: usize, height: usize) -> (dst: Vec<Vec<usize>>)
    requires
        is_grid(rows(chunks@), width as int, height as int),
        is_grid(rows(rivers@), width as int, height as int),
        width * height <= usize::MAX,
    ensures
        is_grid(rows(dst@), width as int, height as int),
        forall|i: int, j: int, k: nat|
            #[trigger] in_layer(river_flood(mask_grid(rows(chunks@), rows(rivers@), width as int, height as int), rows(chunks@), width as int, height as int), k, i, j)
            ==> rows(dst@)[i][j] == level(k) || rows(dst@)[i][j] == level(k + 1),
        forall|i: int, j: int| 0 <= i < width && 0 <= j < height && rows(rivers@)[i][j] && rows(chunks@)[i][j] != 0
            ==> #[trigger] rows(dst@)[i][j] == 1,
        forall|i: int, j: int| 0 <= i < width && 0 <= j < height && rows(chunks@)[i][j] == 0
            ==> #[trigger] rows(dst@)[i][j] == 9999,
        forall|i: int, j: int| 0 <= i < width && 0 <= j < height
            && !flooded(river_flood(mask_grid(rows(chunks@), rows(rivers@), width as int, height as int), rows(chunks@), width as int, height as int), i, j)
            ==> #[trigger] rows(dst@)[i][j] == mask_value(rows(chunks@)[i][j], rows(rivers@)[i][j]),
        forall|i: int, j: int| 0 <= i < width && 0 <= j < height && rows(chunks@)[i][j] != 0
            && !flooded(river_flood(mask_grid(rows(chunks@), rows(rivers@), width as int, height as int), rows(chunks@), width as int, height as int), i, j)
            ==> #[trigger] rows(dst@)[i][j] == 0,
        forall|i: int, j: int, k: nat|
            #[trigger] in_layer(river_flood(mask_grid(rows(chunks@), rows(rivers@), width as int, height as int), rows(chunks@), width as int, height as int), k, i, j)
            ==> 1 <= rows(dst@)[i][j] <= 255,
{
    let mut dst = river_mask(chunks, rivers, width, height);
    proof {
        let mg = mask_grid(rows(chunks@), rows(rivers@), width as int, height as int);
        assert forall|x: int| 0 <= x < width implies #[trigger] rows(dst@)[x] =~= mg[x] by {
            assert forall|y: int| 0 <= y < height implies #[trigger] rows(dst@)[x][y] == mg[x][y] by {}
        }
        assert(rows(dst@) =~= mg);
    }
    river_distances(&mut dst, chunks, width, height);
    proof {
        let f = river_flood(mask_grid(rows(chunks@), rows(rivers@), width as int, height as int), rows(chunks@), width as int, height as int);
        assert forall|i: int, j: int| 0 <= i < width && 0 <= j < height && rows(chunks@)[i][j] == 0
            implies #[trigger] rows(dst@)[i][j] == 9999 by {
            if flooded(f, i, j) {
                let k = choose|k: nat| #[trigger] in_layer(f, k, i, j);
                law_marked_cells_are_never_flooded(f.cells, rows(chunks@), width as int, height as int, k, i, j);
            }
        }
        assert forall|i: int, j: int| 0 <= i < width && 0 <= j < height && rows(chunks@)[i][j] != 0 && !flooded(f, i, j)
            implies #[trigger] rows(dst@)[i][j] == 0 by {
            if rows(rivers@)[i][j] {
                assert(in_layer(f, 0, i, j));
            }
        }
    }
    dst
}

/// The starting mask sees a land value only through whether it is water:
/// water (0) is 9999 whatever the river grid says, and every land value gives
/// 1 on a river and 0 (unmeasured) elsewhere.
pub proof fn law_mask_sees_only_water_or_land(v1: u8, v2: u8, river: bool)
    requires
        v1 > 0,
        v2 > 0,
    ensures
        mask_value(v1, river) == mask_value(v2, river),
        mask_value(v1, true) == 1,
        mask_value(v1, false) == 0,
        mask_value(0, river) == 9999,
{
}

/// The river flood spreads over land: a land cell next to a cell of layer
/// `k` of the flood from the river mask is reached by layer `k + 1`, so every
/// land cell connected through land to a river cell on land is measured.
pub proof fn law_flood_spreads_over_land(land: Seq<Seq<u8>>, rivers: Seq<Seq<bool>>, w: int, h: int, k: nat, x1: int, y1: int, x2: int, y2: int)
    requires
        in_layer(river_flood(mask_grid(land, rivers, w, h), land, w, h), k, x1, y1),
        adjacent(x1, y1, x2, y2),
        0 <= x2 < w,
        0 <= y2 < h,
        land[x2][y2] > 0,
    ensures
        reached(river_flood(mask_grid(land, rivers, w, h), land, w, h), k + 1, x2, y2),
{
    let f = river_flood(mask_grid(land, rivers, w, h), land, w, h);
    if rivers[x2][y2] {
        assert(in_layer(f, 0, x2, y2));
        lemma_layer_reached(f, 0, k + 1, x2, y2);
    } else {
        assert(f.cells[x2][y2] == 0);
        if !reached(f, k, x2, y2) {
            assert(in_layer(f, k + 1, x2, y2));
        }
    }
}

/// A land river cell lies in the first layer of the flood from the river mask.
pub proof fn law_river_cells_seed_the_flood(land: Seq<Seq<u8>>, rivers: Seq<Seq<bool>>, w: int, h: int, x: int, y: int)
    requires
        0 <= x < w,
        0 <= y < h,
        land[x][y] > 0,
        rivers[x][y],
    ensures
        in_layer(river_flood(mask_grid(land, rivers, w, h), land, w, h), 0, x, y),
{
}

/// A cell holding neither 0 nor the seed mark 1 never lies in a layer of the
/// river flood; on the mask, those are the water cells (9999).
pub proof fn law_marked_cells_are_never_flooded(dst: Seq<Seq<usize>>, land: Seq<Seq<u8>>, w: int, h: int, k: nat, x: int, y: int)
    requires
        dst[x][y] != 0,
        dst[x][y] != 1,
    ensures
        !in_layer(river_flood(dst, land, w, h), k, x, y),
{
}

} // verus!
