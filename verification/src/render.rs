use vstd::prelude::*;
use crate::grid::{rows, is_grid};

verus! {

/// The grey level that shows a distance: the distance, at most 255.
pub open spec fn shade(v: usize) -> u8 {
    if v < 255 { v as u8 } else { 255 }
}

/// The grey level of a distance is the distance capped at 255: distances
/// below 255 show as themselves, all others (water's 9999 among them) as
/// white (255).
pub proof fn law_shade_caps_distance(v: usize)
    ensures
        v < 255 ==> shade(v) == v,
        v >= 255 ==> shade(v) == 255,
{
}

/// A greater distance never shows darker.
pub proof fn law_shade_monotone(v1: usize, v2: usize)
    requires
        v1 <= v2,
    ensures
        shade(v1) <= shade(v2),
{
}

/// `v` is the shade of a cell whose pixel covers byte `i`.
pub open spec fn painted(v: u8, i: int, g: Seq<Seq<usize>>, w: int, h: int, pitch: int) -> bool {
    exists|x: int, y: int, c: int| 0 <= x < w && 0 <= y < h && 0 <= c < 3
        && i == #[trigger] pixel_offset(x, y, c, pitch) && v == shade(g[x][y])
}

/// The byte offset of channel `c` of the pixel at column `x`, row `y`, in a
/// buffer of three bytes per pixel and `pitch` bytes per row.
pub open spec fn pixel_offset(x: int, y: int, c: int, pitch: int) -> int {
    x * 3 + y * pitch + c
}

/// `p` with the three channels of the pixel at column `x`, row `y` set to
/// the shade of that cell.
pub open spec fn paint_pixel(p: Seq<u8>, g: Seq<Seq<usize>>, x: int, y: int, pitch: int) -> Seq<u8> {
    let o = pixel_offset(x, y, 0, pitch);
    let s = shade(g[x][y]);
    p.update(o, s).update(o + 1, s).update(o + 2, s)
}

/// `p` after painting, in order, the pixels of columns `0..x` (each column
/// from row 0 to row `h - 1`) and then rows `0..y` of column `x`; a later
/// write to a byte replaces an earlier one.
pub open spec fn painted_upto(p: Seq<u8>, g: Seq<Seq<usize>>, pitch: int, h: nat, x: nat, y: nat) -> Seq<u8>
    decreases x, y,
{
    if y > 0 {
        paint_pixel(painted_upto(p, g, pitch, h, x, (y - 1) as nat), g, x as int, y - 1, pitch)
    } else if x > 0 {
        painted_upto(p, g, pitch, h, (x - 1) as nat, h)
    } else {
        p
    }
}

proof fn lemma_offset_bound(x: int, y: int, c: int, w: int, h: int, pitch: int)
    requires
        0 <= x < w,
        0 <= y < h,
        0 <= c < 3,
        0 <= pitch,
    ensures
        0 <= pixel_offset(x, y, c, pitch) <= pixel_offset(w - 1, h - 1, 2, pitch),
{
    assert(y * pitch <= (h - 1) * pitch) by (nonlinear_arith)
        requires 0 <= y <= h - 1, 0 <= pitch;
    assert(0 <= y * pitch) by (nonlinear_arith)
        requires 0 <= y, 0 <= pitch;
}

proof fn lemma_offset_injective(x: int, y: int, c: int, x2: int, y2: int, c2: int, w: int, pitch: int)
    requires
        0 <= x < w,
        0 <= x2 < w,
        0 <= y,
        0 <= y2,
        0 <= c < 3,
        0 <= c2 < 3,
        pitch >= 3 * w,
        pixel_offset(x, y, c, pitch) == pixel_offset(x2, y2, c2, pitch),
    ensures
        x == x2 && y == y2 && c == c2,
{
    let i = pixel_offset(x, y, c, pitch);
    vstd::arithmetic::div_mod::lemma_fundamental_div_mod_converse(i, pitch, y, x * 3 + c);
    vstd::arithmetic::div_mod::lemma_fundamental_div_mod_converse(i, pitch, y2, x2 * 3 + c2);
    assert(y * pitch == pitch * y) by (nonlinear_arith);
}

/// Paints a distance field into an RGB buffer as grey levels: every channel
/// of the pixel at column `x`, row `y` gets `shade` of the distance there.
/// The pixels are written column by column, each column from its first row,
/// so where rows overlap (`pitch` under three bytes per column) the later
/// write wins. When they do not overlap, each pixel holds exactly its cell's
/// shade; in any case every byte is left as it was or holds the shade of a
/// cell whose pixel covers it.
pub fn paint_distances(pixels: &mut [u8], pitch: usize, field: &Vec<Vec<usize>>, width: usize, height: usize)
    requires
        is_grid(rows(field@), width as int, height as int),
        width > 0 && height > 0 ==> pixel_offset(width - 1, height - 1, 2, pitch as int) < old(pixels)@.len(),
    ensures
        final(pixels)@.len() == old(pixels)@.len(),
        final(pixels)@ == painted_upto(old(pixels)@, rows(field@), pitch as int, height as nat, width as nat, 0),
        pitch >= 3 * width ==> forall|x: int, y: int, c: int| 0 <= x < width && 0 <= y < height && 0 <= c < 3
            ==> #[trigger] final(pixels)@[pixel_offset(x, y, c, pitch as int)] == shade(rows(field@)[x][y]),
        forall|i: int| 0 <= i < old(pixels)@.len() ==> #[trigger] final(pixels)@[i] == old(pixels)@[i]
            || painted(final(pixels)@[i], i, rows(field@), width as int, height as int, pitch as int),
{
    let ghost p0 = pixels@;
    let ghost g = rows(field@);
    let mut x: usize = 0;
    while x < width
        invariant
            x <= width,
            g == rows(field@),
            is_grid(g, width as int, height as int),
            width > 0 && height > 0 ==> pixel_offset(width - 1, height - 1, 2, pitch as int) < p0.len(),
            pixels@.len() == p0.len(),
            pixels@ == painted_upto(p0, g, pitch as int, height as nat, x as nat, 0),
            pitch >= 3 * width ==> forall|i: int, j: int, c: int| 0 <= i < x && 0 <= j < height && 0 <= c < 3
                ==> #[trigger] pixels@[pixel_offset(i, j, c, pitch as int)] == shade(g[i][j]),
            forall|i: int| 0 <= i < p0.len() ==> #[trigger] pixels@[i] == p0[i]
                || painted(pixels@[i], i, g, width as int, height as int, pitch as int),
        decreases width - x,
    {
        let mut y: usize = 0;
        assert(field@[x as int]@ == g[x as int]);
        while y < height
            invariant
                x < width,
                y <= height,
                g == rows(field@),
                is_grid(g, width as int, height as int),
                field@[x as int]@ == g[x as int],
                height > 0 ==> pixel_offset(width - 1, height - 1, 2, pitch as int) < p0.len(),
                pixels@.len() == p0.len(),
                pixels@ == painted_upto(p0, g, pitch as int, height as nat, x as nat, y as nat),
                pitch >= 3 * width ==> forall|i: int, j: int, c: int| 0 <= i < width && 0 <= j < height && 0 <= c < 3
                    && (i < x || (i == x && j < y))
                    ==> #[trigger] pixels@[pixel_offset(i, j, c, pitch as int)] == shade(g[i][j]),
                forall|i: int| 0 <= i < p0.len() ==> #[trigger] pixels@[i] == p0[i]
                    || painted(pixels@[i], i, g, width as int, height as int, pitch as int),
            decreases height - y,
        {
            let v = field[x][y];
            let s: u8 = if v < 255 { v as u8 } else { 255 };
            proof {
                lemma_offset_bound(x as int, y as int, 2, width as int, height as int, pitch as int);
                lemma_offset_bound(x as int, y as int, 0, width as int, height as int, pitch as int);
                assert(0 <= y * pitch) by (nonlinear_arith)
                    requires 0 <= y, 0 <= pitch;
                assert(x * 3 + y * pitch + 2 < pixels@.len());
            }
            let n = pixels.len();
            assert(x * 3 + y * pitch < n);
            let base = x * 3 + y * pitch;
            let ghost before = pixels@;
            pixels[base] = s;
            pixels[base + 1] = s;
            pixels[base + 2] = s;
            proof {
                assert(pixels@ =~= paint_pixel(before, g, x as int, y as int, pitch as int));
                assert(s == shade(g[x as int][y as int]));
                assert forall|i: int| 0 <= i < p0.len() implies #[trigger] pixels@[i] == p0[i]
                    || painted(pixels@[i], i, g, width as int, height as int, pitch as int) by {
                    if i == base || i == base + 1 || i == base + 2 {
                        assert(pixels@[i] == s);
                        assert(i == pixel_offset(x as int, y as int, i - base, pitch as int));
                    } else {
                        assert(pixels@[i] == before[i]);
                    }
                }
                if pitch >= 3 * width {
                    assert forall|i: int, j: int, c: int| 0 <= i < width && 0 <= j < height && 0 <= c < 3
                        && (i < x || (i == x && j < y + 1))
                        implies #[trigger] pixels@[pixel_offset(i, j, c, pitch as int)] == shade(g[i][j]) by {
                        let o = pixel_offset(i, j, c, pitch as int);
                        lemma_offset_bound(i, j, c, width as int, height as int, pitch as int);
                        if i == x && j == y {
                            assert(o == base + c);
                        } else {
                            if o == base || o == base + 1 || o == base + 2 {
                                lemma_offset_injective(i, j, c, x as int, y as int, o - base, width as int, pitch as int);
                            }
                            assert(pixels@[o] == before[o]);
                        }
                    }
                }
            }
            y = y + 1;
        }
        assert(painted_upto(p0, g, pitch as int, height as nat, (x + 1) as nat, 0)
            == painted_upto(p0, g, pitch as int, height as nat, x as nat, height as nat));
        x = x + 1;
    }
}

} // verus!
