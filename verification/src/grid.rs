use vstd::prelude::*;

verus! {

/// The contents of a grid stored column by column: `rows(g)[x][y]` is the
/// cell at column `x`, row `y`.
pub open spec fn rows<T>(g: Seq<Vec<T>>) -> Seq<Seq<T>> {
    g.map_values(|column: Vec<T>| column@)
}

/// `g` has `w` columns of `h` cells each.
pub open spec fn is_grid<T>(g: Seq<Seq<T>>, w: int, h: int) -> bool {
    &&& g.len() == w
    &&& forall|x: int| 0 <= x < w ==> #[trigger] g[x].len() == h
}

/// `g` with the cell at column `x`, row `y` replaced by `v`.
pub open spec fn with_cell<T>(g: Seq<Seq<T>>, x: int, y: int, v: T) -> Seq<Seq<T>> {
    g.update(x, g[x].update(y, v))
}

/// A grid of `width` columns of `height` cells, every cell `fill`.
pub fn filled_grid<T: Copy>(width: usize, height: usize, fill: T) -> (g: Vec<Vec<T>>)
    ensures
        is_grid(rows(g@), width as int, height as int),
        forall|x: int, y: int|
            0 <= x < width && 0 <= y < height ==> #[trigger] rows(g@)[x][y] == fill,
{
    let mut g: Vec<Vec<T>> = Vec::new();
    let mut x: usize = 0;
    while x < width
        invariant
            x <= width,
            g@.len() == x,
            forall|i: int| 0 <= i < x ==> (#[trigger] g@[i])@.len() == height,
            forall|i: int, y: int| 0 <= i < x && 0 <= y < height ==> #[trigger] g@[i]@[y] == fill,
        decreases width - x,
    {
        let mut column: Vec<T> = Vec::new();
        let mut y: usize = 0;
        while y < height
            invariant
                y <= height,
                column@.len() == y,
                forall|j: int| 0 <= j < y ==> #[trigger] column@[j] == fill,
            decreases height - y,
        {
            column.push(fill);
            y = y + 1;
        }
        g.push(column);
        x = x + 1;
    }
    g
}

/// Replaces the cell at column `x`, row `y`.
pub fn set_cell<T>(g: &mut Vec<Vec<T>>, x: usize, y: usize, v: T)
    requires
        x < old(g)@.len(),
        y < old(g)@[x as int]@.len(),
    ensures
        rows(final(g)@) == with_cell(rows(old(g)@), x as int, y as int, v),
{
    g[x].set(y, v);
    assert(rows(g@) =~= with_cell(rows(old(g)@), x as int, y as int, v));
}

/// Replacing one cell keeps a grid's shape.
pub proof fn lemma_with_cell_keeps_shape<T>(g: Seq<Seq<T>>, x: int, y: int, v: T, w: int, h: int)
    requires
        is_grid(g, w, h),
        0 <= x < w,
        0 <= y < h,
    ensures
        is_grid(with_cell(g, x, y, v), w, h),
{
    let n = with_cell(g, x, y, v);
    assert forall|i: int| 0 <= i < w implies #[trigger] n[i].len() == h by {
        if i != x {
            assert(n[i] == g[i]);
        }
    }
}

} // verus!
