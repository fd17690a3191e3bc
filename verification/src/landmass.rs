use vstd::prelude::*;
use crate::grid::{rows, is_grid, with_cell, set_cell, lemma_with_cell_keeps_shape};
use crate::random::random_in_range;
use crate::flood::{count_cells, lemma_count_cells_one_more, lemma_count_cells_none};

verus! {

/// 1 for a land cell (any value above 0), 0 for water.
pub open spec fn land(v: u8) -> int {
    if v > 0 { 1 } else { 0 }
}

/// Land cells in column `x` between rows `y0` (included) and `y1` (excluded).
pub open spec fn land_in_column(g: Seq<Seq<u8>>, x: int, y0: int, y1: int) -> int
    decreases y1 - y0,
{
    if y1 <= y0 {
        0
    } else {
        land_in_column(g, x, y0, y1 - 1) + land(g[x][y1 - 1])
    }
}

/// Land cells in columns `x0..x1` and rows `y0..y1`.
pub open spec fn land_in_rect(g: Seq<Seq<u8>>, x0: int, x1: int, y0: int, y1: int) -> int
    decreases x1 - x0,
{
    if x1 <= x0 {
        0
    } else {
        land_in_rect(g, x0, x1 - 1, y0, y1) + land_in_column(g, x1 - 1, y0, y1)
    }
}

/// The neighbourhood radius used by the automaton in its given round:
/// 6, 10, 12, 12, 10, 6 for rounds 0 to 5.
pub open spec fn automaton_radius(iteration: int) -> int {
    12 - (iteration - 2) * (iteration - 3)
}

/// First index of the window of radius `r` around `c`.
pub open spec fn window_start(c: int, r: int) -> int {
    if c >= r { c - r } else { 0 }
}

/// One past the last index of the window of radius `r` around `c`, within `n`.
pub open spec fn window_end(c: int, r: int, n: int) -> int {
    if c + r + 1 <= n { c + r + 1 } else { n }
}

/// Land cells within the square window of radius `r` around `(x, y)`.
pub open spec fn neighbourhood_land(g: Seq<Seq<u8>>, x: int, y: int, r: int, w: int, h: int) -> int {
    land_in_rect(g, window_start(x, r), window_end(x, r, w), window_start(y, r), window_end(y, r, h))
}

/// The size measure of the window around `(x, y)` that scales the survival
/// thresholds: each side length plus one, multiplied.
pub open spec fn neighbourhood_span(x: int, y: int, r: int, w: int, h: int) -> int {
    (window_end(x, r, w) - window_start(x, r) + 1) * (window_end(y, r, h) - window_start(y, r) + 1)
}

/// A cell survives as land (255) when its neighbourhood holds at least
/// `threshold` land cells, and becomes water (0) otherwise.
pub open spec fn survival(count: int, threshold: int) -> u8 {
    if count < threshold { 0 } else { 255 }
}

/// `v` is a fate the automaton can give a cell whose neighbourhood holds
/// `count` land cells within a window of the given span, for some threshold
/// it may draw.
pub open spec fn possible_fate(count: int, span: int, v: u8) -> bool {
    exists|t: int| span / 20 <= t < span / 9 + 1 && v == #[trigger] survival(count, t)
}

/// Every cell is water (0) or land (255).
pub open spec fn is_binary(g: Seq<Seq<u8>>, w: int, h: int) -> bool {
    forall|x: int, y: int| 0 <= x < w && 0 <= y < h ==> #[trigger] g[x][y] == 0 || g[x][y] == 255
}

proof fn lemma_land_in_column_bounds(g: Seq<Seq<u8>>, x: int, y0: int, y1: int)
    requires
        y0 <= y1,
    ensures
        0 <= land_in_column(g, x, y0, y1) <= y1 - y0,
    decreases y1 - y0,
{
    if y1 > y0 {
        lemma_land_in_column_bounds(g, x, y0, y1 - 1);
    }
}

proof fn lemma_land_in_rect_bounds(g: Seq<Seq<u8>>, x0: int, x1: int, y0: int, y1: int)
    requires
        x0 <= x1,
        y0 <= y1,
    ensures
        0 <= land_in_rect(g, x0, x1, y0, y1) <= (x1 - x0) * (y1 - y0),
    decreases x1 - x0,
{
    if x1 > x0 {
        lemma_land_in_rect_bounds(g, x0, x1 - 1, y0, y1);
        lemma_land_in_column_bounds(g, x1 - 1, y0, y1);
        assert((x1 - 1 - x0) * (y1 - y0) + (y1 - y0) == (x1 - x0) * (y1 - y0)) by (nonlinear_arith);
    }
}

/// Counts the land cells in columns `x0..x1` and rows `y0..y1`.
pub fn count_land(chunks: &Vec<Vec<u8>>, x0: usize, x1: usize, y0: usize, y1: usize) -> (count: usize)
    requires
        x0 <= x1 <= chunks@.len(),
        y0 <= y1,
        (x1 - x0) * (y1 - y0) <= usize::MAX,
        forall|x: int| x0 <= x < x1 ==> y1 <= (#[trigger] chunks@[x])@.len(),
    ensures
        count == land_in_rect(rows(chunks@), x0 as int, x1 as int, y0 as int, y1 as int),
{
    let ghost g = rows(chunks@);
    let mut count: usize = 0;
    let mut xp = x0;
    while xp < x1
        invariant
            x0 <= xp <= x1,
            x1 <= chunks@.len(),
            y0 <= y1,
            (x1 - x0) * (y1 - y0) <= usize::MAX,
            g == rows(chunks@),
            forall|x: int| x0 <= x < x1 ==> y1 <= (#[trigger] chunks@[x])@.len(),
            count == land_in_rect(g, x0 as int, xp as int, y0 as int, y1 as int),
        decreases x1 - xp,
    {
        proof {
            lemma_land_in_rect_bounds(g, x0 as int, xp as int, y0 as int, y1 as int);
            assert((xp - x0) * (y1 - y0) + (y1 - y0) <= (x1 - x0) * (y1 - y0)) by (nonlinear_arith)
                requires xp < x1, x0 <= xp, y0 <= y1;
        }
        let mut yp = y0;
        let ghost base = count;
        while yp < y1
            invariant
                x0 <= xp < x1,
                y0 <= yp <= y1,
                x1 <= chunks@.len(),
                (xp - x0) * (y1 - y0) + (y1 - y0) <= usize::MAX,
                g == rows(chunks@),
                forall|x: int| x0 <= x < x1 ==> y1 <= (#[trigger] chunks@[x])@.len(),
                base == land_in_rect(g, x0 as int, xp as int, y0 as int, y1 as int),
                base <= (xp - x0) * (y1 - y0),
                count == base + land_in_column(g, xp as int, y0 as int, yp as int),
            decreases y1 - yp,
        {
            proof {
                lemma_land_in_column_bounds(g, xp as int, y0 as int, yp as int);
            }
            assert(g[xp as int][yp as int] == chunks@[xp as int]@[yp as int]);
            if chunks[xp][yp] > 0 {
                count = count + 1;
            }
            yp = yp + 1;
        }
        xp = xp + 1;
    }
    count
}

/// The fate of a cell whose neighbourhood holds `count` land cells, given the
/// survival threshold drawn for it.
pub fn cell_fate(count: usize, threshold: usize) -> (v: u8)
    ensures
        v == survival(count as int, threshold as int),
{
    if count < threshold { 0 } else { 255 }
}

/// One round of the continent automaton. Each cell counts the land in the
/// square window of radius `automaton_radius(iteration)` around it and draws
/// a threshold uniformly between a twentieth and a ninth (inclusive) of the
/// window's span; it becomes land when the count reaches the threshold.
/// Whatever the draws, a cell with fewer land neighbours than a twentieth of
/// the span becomes water, and one with at least a ninth becomes land.
pub fn automaton_step(chunks: &Vec<Vec<u8>>, width: usize, height: usize, iteration: usize) -> (next: Vec<Vec<u8>>)
    requires
        is_grid(rows(chunks@), width as int, height as int),
        iteration <= 6,
    ensures
        is_grid(rows(next@), width as int, height as int),
        automaton_outcome(rows(chunks@), rows(next@), width as int, height as int, iteration as int),
        forall|x: int, y: int| 0 <= x < width && 0 <= y < height ==> {
            let count = neighbourhood_land(rows(chunks@), x, y, automaton_radius(iteration as int), width as int, height as int);
            let span = neighbourhood_span(x, y, automaton_radius(iteration as int), width as int, height as int);
            possible_fate(count, span, #[trigger] rows(next@)[x][y])
        },
{
    let ghost g = rows(chunks@);
    let it = iteration as isize;
    proof {
        assert(0 <= automaton_radius(iteration as int) <= 12) by {
            if iteration == 0 { assert((0int - 2) * (0int - 3) == 6) by (nonlinear_arith); }
            else if iteration == 1 { assert((1int - 2) * (1int - 3) == 2) by (nonlinear_arith); }
            else if iteration == 2 { assert((2int - 2) * (2int - 3) == 0) by (nonlinear_arith); }
            else if iteration == 3 { assert((3int - 2) * (3int - 3) == 0) by (nonlinear_arith); }
            else if iteration == 4 { assert((4int - 2) * (4int - 3) == 2) by (nonlinear_arith); }
            else if iteration == 5 { assert((5int - 2) * (5int - 3) == 6) by (nonlinear_arith); }
            else { assert((6int - 2) * (6int - 3) == 12) by (nonlinear_arith); }
        }
        assert((it - 2) * (it - 3) == (iteration as int - 2) * (iteration as int - 3));
    }
    let r = (12 - (it - 2) * (it - 3)) as usize;
    let ghost rr = automaton_radius(iteration as int);
    assert(r == rr);
    let mut next: Vec<Vec<u8>> = Vec::new();
    let mut x: usize = 0;
    while x < width
        invariant
            x <= width,
            g == rows(chunks@),
            is_grid(g, width as int, height as int),
            r == rr,
            0 <= rr <= 12,
            next@.len() == x,
            forall|i: int| 0 <= i < x ==> (#[trigger] next@[i])@.len() == height,
            forall|i: int, j: int| 0 <= i < x && 0 <= j < height ==> {
                let count = neighbourhood_land(g, i, j, rr, width as int, height as int);
                let span = neighbourhood_span(i, j, rr, width as int, height as int);
                possible_fate(count, span, #[trigger] next@[i]@[j])
            },
        decreases width - x,
    {
        let mut column: Vec<u8> = Vec::new();
        let mut y: usize = 0;
        let sx = if x >= r { x - r } else { 0 };
        let ex = if width - x > r { x + r + 1 } else { width };
        while y < height
            invariant
                x < width,
                y <= height,
                g == rows(chunks@),
                is_grid(g, width as int, height as int),
                r == rr,
                0 <= rr <= 12,
                sx == window_start(x as int, rr),
                ex == window_end(x as int, rr, width as int),
                column@.len() == y,
                forall|j: int| 0 <= j < y ==> {
                    let count = neighbourhood_land(g, x as int, j, rr, width as int, height as int);
                    let span = neighbourhood_span(x as int, j, rr, width as int, height as int);
                    possible_fate(count, span, #[trigger] column@[j])
                },
            decreases height - y,
        {
            let sy = if y >= r { y - r } else { 0 };
            let ey = if height - y > r { y + r + 1 } else { height };
            assert(forall|i: int| sx <= i < ex ==> ey <= (#[trigger] chunks@[i])@.len()) by {
                assert forall|i: int| sx <= i < ex implies ey <= (#[trigger] chunks@[i])@.len() by {
                    assert(g[i].len() == height);
                }
            }
            assert((ex - sx) * (ey - sy) <= 25 * 25) by (nonlinear_arith)
                requires ex - sx <= 25, ey - sy <= 25, ex >= sx, ey >= sy;
            let count = count_land(chunks, sx, ex, sy, ey);
            let a = ex - sx + 1;
            let b = ey - sy + 1;
            assert(a * b <= 26 * 26) by (nonlinear_arith)
                requires a <= 26, b <= 26, a >= 0, b >= 0;
            let span = a * b;
            assert(span == neighbourhood_span(x as int, y as int, rr, width as int, height as int));
            let threshold = random_in_range(span / 20, span / 9 + 1);
            let v = cell_fate(count, threshold);
            column.push(v);
            proof {
                let count_s = neighbourhood_land(g, x as int, y as int, rr, width as int, height as int);
                assert(column@[y as int] == survival(count_s, threshold as int));
                assert(possible_fate(count_s, span as int, column@[y as int]));
            }
            y = y + 1;
        }
        next.push(column);
        proof {
            assert forall|i: int, j: int| 0 <= i < x + 1 && 0 <= j < height implies {
                let count = neighbourhood_land(g, i, j, rr, width as int, height as int);
                let span = neighbourhood_span(i, j, rr, width as int, height as int);
                possible_fate(count, span, #[trigger] next@[i]@[j])
            } by {
                if i == x {
                    assert(next@[i] == column);
                }
            }
        }
        x = x + 1;
    }
    proof {
        assert forall|i: int, j: int| 0 <= i < width && 0 <= j < height implies {
            let count = neighbourhood_land(rows(chunks@), i, j, automaton_radius(iteration as int), width as int, height as int);
            let span = neighbourhood_span(i, j, automaton_radius(iteration as int), width as int, height as int);
            possible_fate(count, span, #[trigger] rows(next@)[i][j])
        } by {
            assert(rows(next@)[i] == next@[i]@);
        }
        assert forall|i: int| 0 <= i < width implies #[trigger] rows(next@)[i].len() == height by {
            assert(rows(next@)[i] == next@[i]@);
        }
    }
    next
}

/// For a cell whose window of radius `r` lies wholly inside the grid, the
/// window is `2r + 1` cells wide and high, and the span that scales the
/// survival thresholds is `(2r + 2)` squared.
pub proof fn law_interior_span(x: int, y: int, r: int, w: int, h: int)
    requires
        0 <= r <= x,
        x + r < w,
        r <= y,
        y + r < h,
    ensures
        window_end(x, r, w) - window_start(x, r) == 2 * r + 1,
        window_end(y, r, h) - window_start(y, r) == 2 * r + 1,
        neighbourhood_span(x, y, r, w, h) == (2 * r + 2) * (2 * r + 2),
{
}

/// For any cell of a grid, the span is the number of columns of its window
/// plus one, times the number of rows plus one, where the window runs from
/// `r` before the cell (or the grid's first cell) to `r` after it (or the
/// grid's last cell).
pub proof fn law_span_counts_window_cells(x: int, y: int, r: int, w: int, h: int)
    requires
        0 <= r,
        0 <= x < w,
        0 <= y < h,
    ensures
        ({
            let cols = (if x + r < w { x + r } else { w - 1 }) - (if x - r > 0 { x - r } else { 0 }) + 1;
            let rws = (if y + r < h { y + r } else { h - 1 }) - (if y - r > 0 { y - r } else { 0 }) + 1;
            neighbourhood_span(x, y, r, w, h) == (cols + 1) * (rws + 1)
        }),
{
}

/// For the corner cell (0, 0) of a grid at least `r + 1` cells wide and
/// high, the window is `r + 1` cells wide and high and the span is `(r + 2)`
/// squared.
pub proof fn law_corner_span(r: int, w: int, h: int)
    requires
        0 <= r,
        r + 1 <= w,
        r + 1 <= h,
    ensures
        window_end(0, r, w) - window_start(0, r) == r + 1,
        window_end(0, r, h) - window_start(0, r) == r + 1,
        neighbourhood_span(0, 0, r, w, h) == (r + 2) * (r + 2),
{
}

/// The automaton's radius in its six rounds.
pub proof fn law_automaton_radii()
    ensures
        automaton_radius(0) == 6,
        automaton_radius(1) == 10,
        automaton_radius(2) == 12,
        automaton_radius(3) == 12,
        automaton_radius(4) == 10,
        automaton_radius(5) == 6,
{
    assert((0int - 2) * (0int - 3) == 6) by (nonlinear_arith);
    assert((1int - 2) * (1int - 3) == 2) by (nonlinear_arith);
    assert((2int - 2) * (2int - 3) == 0) by (nonlinear_arith);
    assert((3int - 2) * (3int - 3) == 0) by (nonlinear_arith);
    assert((4int - 2) * (4int - 3) == 2) by (nonlinear_arith);
    assert((5int - 2) * (5int - 3) == 6) by (nonlinear_arith);
}

/// Whatever threshold is drawn, a cell whose neighbourhood holds at least a
/// ninth of the span of land survives as land, and one with less than a
/// twentieth becomes water.
pub proof fn law_fate_by_count(count: int, span: int, v: u8)
    requires
        possible_fate(count, span, v),
    ensures
        count >= span / 9 ==> v == 255,
        count < span / 20 ==> v == 0,
{
}

/// In a round of the automaton, a cell whose window lies wholly inside the
/// grid and holds at least `(2r + 2)² / 9` land cells (21 for the radius 6
/// of the first and last rounds) becomes land whatever the draws, and one
/// holding fewer than `(2r + 2)² / 20` (9 for radius 6) becomes water.
pub proof fn law_interior_cell_fate(g: Seq<Seq<u8>>, next: Seq<Seq<u8>>, w: int, h: int, iteration: int, x: int, y: int)
    requires
        automaton_outcome(g, next, w, h, iteration),
        0 <= automaton_radius(iteration) <= x,
        x + automaton_radius(iteration) < w,
        automaton_radius(iteration) <= y,
        y + automaton_radius(iteration) < h,
    ensures
        ({
            let r = automaton_radius(iteration);
            let count = neighbourhood_land(g, x, y, r, w, h);
            &&& count >= (2 * r + 2) * (2 * r + 2) / 9 ==> next[x][y] == 255
            &&& count < (2 * r + 2) * (2 * r + 2) / 20 ==> next[x][y] == 0
        }),
{
    let r = automaton_radius(iteration);
    law_interior_span(x, y, r, w, h);
    law_fate_by_count(neighbourhood_land(g, x, y, r, w, h), neighbourhood_span(x, y, r, w, h), next[x][y]);
}

/// In the first round (radius 6), an interior cell with at least 21 land
/// cells in its window always becomes land, and one with fewer than 9 always
/// becomes water.
pub proof fn law_first_round_interior_fate(g: Seq<Seq<u8>>, next: Seq<Seq<u8>>, w: int, h: int, x: int, y: int)
    requires
        automaton_outcome(g, next, w, h, 0),
        6 <= x,
        x + 6 < w,
        6 <= y,
        y + 6 < h,
    ensures
        neighbourhood_land(g, x, y, 6, w, h) >= 21 ==> next[x][y] == 255,
        neighbourhood_land(g, x, y, 6, w, h) < 9 ==> next[x][y] == 0,
{
    law_automaton_radii();
    law_interior_cell_fate(g, next, w, h, 0, x, y);
    assert((2 * 6int + 2) * (2 * 6int + 2) == 196) by (nonlinear_arith);
    assert(196int / 9 == 21 && 196int / 20 == 9);
}

/// The cells where two grids differ.
pub open spec fn changed_cells(a: Seq<Seq<u8>>, b: Seq<Seq<u8>>) -> spec_fn(int, int) -> bool {
    |x: int, y: int| a[x][y] != b[x][y]
}

/// `g` with land (255) marked at each listed point that lies in the `w` by
/// `h` grid, in list order; points outside the grid are skipped.
pub open spec fn marked(g: Seq<Seq<u8>>, points: Seq<(usize, usize)>, w: int, h: int) -> Seq<Seq<u8>>
    decreases points.len(),
{
    if points.len() == 0 {
        g
    } else {
        let m = marked(g, points.drop_last(), w, h);
        let p = points.last();
        if p.0 < w && p.1 < h { with_cell(m, p.0 as int, p.1 as int, 255) } else { m }
    }
}

/// Marking keeps the grid's shape, leaves every cell as it was or land, changes
/// no more cells than there are points, and the last point, when it lies in
/// the grid, is land.
pub proof fn lemma_marked(g: Seq<Seq<u8>>, points: Seq<(usize, usize)>, w: int, h: int)
    requires
        is_grid(g, w, h),
    ensures
        is_grid(marked(g, points, w, h), w, h),
        forall|x: int, y: int| 0 <= x < w && 0 <= y < h ==>
            #[trigger] marked(g, points, w, h)[x][y] == g[x][y] || marked(g, points, w, h)[x][y] == 255,
        count_cells(changed_cells(g, marked(g, points, w, h)), w, h) <= points.len(),
        points.len() > 0 && points.last().0 < w && points.last().1 < h ==>
            marked(g, points, w, h)[points.last().0 as int][points.last().1 as int] == 255,
    decreases points.len(),
{
    if points.len() == 0 {
        let p = changed_cells(g, g);
        assert forall|i: int, j: int| !#[trigger] p(i, j) by {}
        lemma_count_cells_none(p, w, h);
    } else {
        let d = points.drop_last();
        lemma_marked(g, d, w, h);
        let m = marked(g, d, w, h);
        let pt = points.last();
        if pt.0 < w && pt.1 < h {
            let (x, y) = (pt.0 as int, pt.1 as int);
            lemma_with_cell_keeps_shape(m, x, y, 255u8, w, h);
            let n = with_cell(m, x, y, 255u8);
            assert forall|i: int, j: int| 0 <= i < w && 0 <= j < h implies
                #[trigger] n[i][j] == g[i][j] || n[i][j] == 255 by {
                if i != x || j != y {
                    assert(n[i][j] == m[i][j]);
                }
            }
            let p = changed_cells(g, n);
            let q = changed_cells(g, m);
            assert forall|i: int, j: int| 0 <= i < w && 0 <= j < h && #[trigger] p(i, j) && (i != x || j != y) implies q(i, j) by {
                assert(n[i][j] == m[i][j]);
            }
            lemma_count_cells_one_more(p, q, w, h, x, y);
        }
    }
}

/// Marks land (255) at every listed point that lies in the grid, in list
/// order; points outside the grid are skipped.
pub fn mark_land(chunks: &mut Vec<Vec<u8>>, points: &Vec<(usize, usize)>, width: usize, height: usize)
    requires
        is_grid(rows(old(chunks)@), width as int, height as int),
    ensures
        rows(final(chunks)@) == marked(rows(old(chunks)@), points@, width as int, height as int),
{
    let ghost g0 = rows(chunks@);
    let mut i: usize = 0;
    while i < points.len()
        invariant
            i <= points@.len(),
            is_grid(g0, width as int, height as int),
            rows(chunks@) == marked(g0, points@.subrange(0, i as int), width as int, height as int),
        decreases points@.len() - i,
    {
        proof {
            lemma_marked(g0, points@.subrange(0, i as int), width as int, height as int);
            assert(points@.subrange(0, i + 1).drop_last() =~= points@.subrange(0, i as int));
        }
        let (x, y) = points[i];
        if x < width && y < height {
            assert(rows(chunks@)[x as int] == chunks@[x as int]@);
            set_cell(chunks, x, y, 255);
        }
        i = i + 1;
    }
    assert(points@.subrange(0, points@.len() as int) =~= points@);
}

/// Scatters land: draws `width * height / 25` points uniformly over the grid
/// and marks each as land (255), in the order drawn. Returns the points drawn.
pub fn scatter_land(chunks: &mut Vec<Vec<u8>>, width: usize, height: usize) -> (points: Vec<(usize, usize)>)
    requires
        is_grid(rows(old(chunks)@), width as int, height as int),
        width * height <= usize::MAX,
    ensures
        points@.len() == width * height / 25,
        forall|i: int| 0 <= i < points@.len() ==> (#[trigger] points@[i]).0 < width && points@[i].1 < height,
        rows(final(chunks)@) == marked(rows(old(chunks)@), points@, width as int, height as int),
        is_grid(rows(final(chunks)@), width as int, height as int),
        forall|x: int, y: int| 0 <= x < width && 0 <= y < height ==>
            #[trigger] rows(final(chunks)@)[x][y] == rows(old(chunks)@)[x][y] || rows(final(chunks)@)[x][y] == 255,
        count_cells(changed_cells(rows(old(chunks)@), rows(final(chunks)@)), width as int, height as int)
            <= width * height / 25,
        width * height / 25 > 0 ==> exists|x: int, y: int| 0 <= x < width && 0 <= y < height
            && #[trigger] rows(final(chunks)@)[x][y] == 255,
{
    let n = width * height / 25;
    if n > 0 {
        assert(width > 0 && height > 0) by (nonlinear_arith)
            requires n == width * height / 25, n > 0, width >= 0, height >= 0;
    }
    let mut points: Vec<(usize, usize)> = Vec::new();
    let mut i: usize = 0;
    while i < n
        invariant
            i <= n,
            n > 0 ==> width > 0 && height > 0,
            points@.len() == i,
            forall|j: int| 0 <= j < i ==> (#[trigger] points@[j]).0 < width && points@[j].1 < height,
        decreases n - i,
    {
        let x = random_in_range(0, width);
        let y = random_in_range(0, height);
        points.push((x, y));
        i = i + 1;
    }
    proof {
        lemma_marked(rows(chunks@), points@, width as int, height as int);
    }
    mark_land(chunks, &points, width, height);
    proof {
        if n > 0 {
            let pt = points@.last();
            assert(points@[points@.len() - 1] == pt);
            assert(rows(chunks@)[pt.0 as int][pt.1 as int] == 255);
        }
    }
    points
}

/// Land among the four direct neighbours of `(x, y)` that lie in the grid.
pub open spec fn land_neighbours(g: Seq<Seq<u8>>, x: int, y: int, w: int, h: int) -> int {
    (if x > 0 { land(g[x - 1][y]) } else { 0 })
    + (if y > 0 { land(g[x][y - 1]) } else { 0 })
    + (if x < w - 1 { land(g[x + 1][y]) } else { 0 })
    + (if y < h - 1 { land(g[x][y + 1]) } else { 0 })
}

/// Clears the cell `(x, y)` when fewer than two of its neighbours are land.
pub open spec fn clean_cell(g: Seq<Seq<u8>>, x: int, y: int, w: int, h: int) -> Seq<Seq<u8>> {
    if land_neighbours(g, x, y, w, h) < 2 { with_cell(g, x, y, 0) } else { g }
}

/// Cleans the cells of column `x` from row 0 up to row `y` (excluded), one
/// after the other, each seeing the cells cleaned before it.
pub open spec fn clean_column(g: Seq<Seq<u8>>, x: int, y: int, w: int, h: int) -> Seq<Seq<u8>>
    decreases y,
{
    if y <= 0 { g } else { clean_cell(clean_column(g, x, y - 1, w, h), x, y - 1, w, h) }
}

/// Cleans columns `0..x` in order, each column from its first row to its last.
pub open spec fn cleaned(g: Seq<Seq<u8>>, x: int, w: int, h: int) -> Seq<Seq<u8>>
    decreases x,
{
    if x <= 0 { g } else { clean_column(cleaned(g, x - 1, w, h), x - 1, h, w, h) }
}

/// `g` has the shape of `g0`, and each of its cells is that of `g0` or water.
pub open spec fn only_cleared(g0: Seq<Seq<u8>>, g: Seq<Seq<u8>>, w: int, h: int) -> bool {
    &&& is_grid(g, w, h)
    &&& forall|x: int, y: int| 0 <= x < w && 0 <= y < h ==> #[trigger] g[x][y] == g0[x][y] || g[x][y] == 0
}

proof fn lemma_clean_column_only_clears(g0: Seq<Seq<u8>>, g: Seq<Seq<u8>>, x: int, y: int, w: int, h: int)
    requires
        only_cleared(g0, g, w, h),
        0 <= x < w,
        y <= h,
    ensures
        only_cleared(g0, clean_column(g, x, y, w, h), w, h),
    decreases y,
{
    if y > 0 {
        lemma_clean_column_only_clears(g0, g, x, y - 1, w, h);
        let p = clean_column(g, x, y - 1, w, h);
        if land_neighbours(p, x, y - 1, w, h) < 2 {
            lemma_with_cell_keeps_shape(p, x, y - 1, 0u8, w, h);
            let n = with_cell(p, x, y - 1, 0u8);
            assert forall|i: int, j: int| 0 <= i < w && 0 <= j < h implies #[trigger] n[i][j] == g0[i][j] || n[i][j] == 0 by {
                if i != x || j != y - 1 {
                    assert(n[i][j] == p[i][j]);
                }
            }
        }
    }
}

/// Cleaning columns `0..x` only turns land into water and keeps the shape.
pub proof fn lemma_cleaned_only_clears(g: Seq<Seq<u8>>, x: int, w: int, h: int)
    requires
        is_grid(g, w, h),
        x <= w,
    ensures
        only_cleared(g, cleaned(g, x, w, h), w, h),
    decreases x,
{
    if x > 0 {
        lemma_cleaned_only_clears(g, x - 1, w, h);
        lemma_clean_column_only_clears(g, cleaned(g, x - 1, w, h), x - 1, h, w, h);
    }
}

/// Removes straggling land: visiting the columns in order and each column
/// from its first row, a cell with fewer than two land neighbours becomes
/// water; later cells see the cells cleared before them.
pub fn clean_stragglers(chunks: &mut Vec<Vec<u8>>, width: usize, height: usize)
    requires
        is_grid(rows(old(chunks)@), width as int, height as int),
    ensures
        rows(final(chunks)@) == cleaned(rows(old(chunks)@), width as int, width as int, height as int),
        only_cleared(rows(old(chunks)@), rows(final(chunks)@), width as int, height as int),
{
    let ghost g0 = rows(chunks@);
    let mut x: usize = 0;
    while x < width
        invariant
            x <= width,
            is_grid(g0, width as int, height as int),
            rows(chunks@) == cleaned(g0, x as int, width as int, height as int),
        decreases width - x,
    {
        let mut y: usize = 0;
        proof {
            lemma_cleaned_only_clears(g0, x as int, width as int, height as int);
        }
        while y < height
            invariant
                x < width,
                y <= height,
                is_grid(g0, width as int, height as int),
                is_grid(rows(chunks@), width as int, height as int),
                rows(chunks@) == clean_column(cleaned(g0, x as int, width as int, height as int), x as int, y as int, width as int, height as int),
            decreases height - y,
        {
            let ghost g = rows(chunks@);
            assert(forall|i: int| 0 <= i < width ==> (#[trigger] chunks@[i])@ == g[i]);
            assert(g[x as int].len() == height);
            let mut count: u8 = 0;
            if x > 0 {
                assert(g[x - 1].len() == height);
                if chunks[x - 1][y] > 0 { count = count + 1; }
            }
            if y > 0 {
                if chunks[x][y - 1] > 0 { count = count + 1; }
            }
            if x < width - 1 {
                assert(g[x + 1].len() == height);
                if chunks[x + 1][y] > 0 { count = count + 1; }
            }
            if y < height - 1 {
                if chunks[x][y + 1] > 0 { count = count + 1; }
            }
            assert(count == land_neighbours(g, x as int, y as int, width as int, height as int));
            if count < 2 {
                set_cell(chunks, x, y, 0);
                proof {
                    lemma_with_cell_keeps_shape(g, x as int, y as int, 0u8, width as int, height as int);
                }
            }
            y = y + 1;
        }
        x = x + 1;
    }
    proof {
        lemma_cleaned_only_clears(g0, width as int, width as int, height as int);
    }
}

/// A fate the automaton can give is water or land.
pub proof fn lemma_possible_fate_binary(count: int, span: int, v: u8)
    requires
        possible_fate(count, span, v),
    ensures
        v == 0 || v == 255,
{
}

/// Every cell of `g` is water.
pub open spec fn is_water(g: Seq<Seq<u8>>, w: int, h: int) -> bool {
    &&& is_grid(g, w, h)
    &&& forall|x: int, y: int| 0 <= x < w && 0 <= y < h ==> #[trigger] g[x][y] == 0
}

/// `g` is what scattering can make of `g0`: land marked at `w * h / 25`
/// points of the grid.
pub open spec fn scatter_outcome(g0: Seq<Seq<u8>>, g: Seq<Seq<u8>>, w: int, h: int) -> bool {
    exists|points: Seq<(usize, usize)>| {
        &&& points.len() == w * h / 25
        &&& forall|i: int| 0 <= i < points.len() ==> (#[trigger] points[i]).0 < w && points[i].1 < h
        &&& g == #[trigger] marked(g0, points, w, h)
    }
}

/// `next` is what the automaton's round `iteration` can make of `g`: every
/// cell is a possible fate of its neighbourhood in `g`.
pub open spec fn automaton_outcome(g: Seq<Seq<u8>>, next: Seq<Seq<u8>>, w: int, h: int, iteration: int) -> bool {
    &&& is_grid(next, w, h)
    &&& forall|x: int, y: int| 0 <= x < w && 0 <= y < h ==> {
        let count = neighbourhood_land(g, x, y, automaton_radius(iteration), w, h);
        let span = neighbourhood_span(x, y, automaton_radius(iteration), w, h);
        possible_fate(count, span, #[trigger] next[x][y])
    }
}

/// Stage `i + 2` of `stages` is an outcome of the automaton's round `i` on
/// stage `i + 1`.
pub open spec fn round_outcome(stages: Seq<Seq<Seq<u8>>>, i: int, w: int, h: int) -> bool {
    automaton_outcome(stages[i + 1], stages[i + 2], w, h, i)
}

/// The stages of land generation: all water, then a scatter outcome of it,
/// then one outcome of each of the automaton's six rounds in turn.
pub open spec fn land_stages(stages: Seq<Seq<Seq<u8>>>, w: int, h: int) -> bool {
    &&& stages.len() == 8
    &&& is_water(stages[0], w, h)
    &&& scatter_outcome(stages[0], stages[1], w, h)
    &&& forall|i: int| 0 <= i < 6 ==> #[trigger] round_outcome(stages, i, w, h)
}

/// Generates a continent map of `width` columns of `height` cells: random
/// land is scattered over water, six rounds of the automaton grow it into
/// landmasses, and straggling land is cleaned up. The result is the cleaning
/// of the last of a run of such stages, and every cell is water (0) or land
/// (255).
pub fn generate_land(width: usize, height: usize) -> (chunks: Vec<Vec<u8>>)
    requires
        width * height <= usize::MAX,
    ensures
        is_grid(rows(chunks@), width as int, height as int),
        is_binary(rows(chunks@), width as int, height as int),
        exists|stages: Seq<Seq<Seq<u8>>>| #[trigger] land_stages(stages, width as int, height as int)
            && rows(chunks@) == cleaned(stages[7], width as int, width as int, height as int),
{
    let ghost w = width as int;
    let ghost h = height as int;
    let mut chunks = crate::grid::filled_grid(width, height, 0u8);
    let ghost water = rows(chunks@);
    assert(is_water(water, w, h));
    let points = scatter_land(&mut chunks, width, height);
    let ghost mut stages: Seq<Seq<Seq<u8>>> = seq![water, rows(chunks@)];
    assert(scatter_outcome(water, rows(chunks@), w, h)) by {
        assert(rows(chunks@) == marked(water, points@, w, h));
    }
    let mut iteration: usize = 0;
    while iteration < 6
        invariant
            iteration <= 6,
            w == width as int,
            h == height as int,
            is_grid(rows(chunks@), w, h),
            iteration > 0 ==> is_binary(rows(chunks@), w, h),
            stages.len() == iteration + 2,
            is_water(stages[0], w, h),
            scatter_outcome(stages[0], stages[1], w, h),
            forall|i: int| 0 <= i < iteration ==> #[trigger] round_outcome(stages, i, w, h),
            stages.last() == rows(chunks@),
        decreases 6 - iteration,
    {
        let ghost prev = rows(chunks@);
        let ghost old_stages = stages;
        let next = automaton_step(&chunks, width, height, iteration);
        chunks = next;
        proof {
            assert forall|x: int, y: int| 0 <= x < width && 0 <= y < height implies
                #[trigger] rows(chunks@)[x][y] == 0 || rows(chunks@)[x][y] == 255 by {
                let r = automaton_radius(iteration as int);
                lemma_possible_fate_binary(
                    neighbourhood_land(prev, x, y, r, w, h),
                    neighbourhood_span(x, y, r, w, h),
                    rows(chunks@)[x][y]);
            }
            stages = stages.push(rows(chunks@));
            assert(stages[0] == old_stages[0] && stages[1] == old_stages[1]);
            assert forall|i: int| 0 <= i < iteration + 1 implies #[trigger] round_outcome(stages, i, w, h) by {
                if i < iteration {
                    assert(round_outcome(old_stages, i, w, h));
                    assert(stages[i + 1] == old_stages[i + 1] && stages[i + 2] == old_stages[i + 2]);
                } else {
                    assert(stages[i + 1] == prev);
                    assert(stages[i + 2] == rows(chunks@));
                }
            }
        }
        iteration = iteration + 1;
    }
    let ghost before = rows(chunks@);
    clean_stragglers(&mut chunks, width, height);
    proof {
        assert forall|x: int, y: int| 0 <= x < width && 0 <= y < height implies
            #[trigger] rows(chunks@)[x][y] == 0 || rows(chunks@)[x][y] == 255 by {
            assert(rows(chunks@)[x][y] == before[x][y] || rows(chunks@)[x][y] == 0);
        }
        assert(stages[7] == before);
        assert(land_stages(stages, w, h));
    }
    chunks
}

} // verus!
