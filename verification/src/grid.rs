//! The image grid and the two-pass transform: every row and every column is
//! rewritten as one line, in the order the direction selects, the second
//! pass seeing the grid as the first pass left it.

use vstd::prelude::*;
use vstd::seq_lib::{lemma_multiset_commutative, lemma_update_is_remove_insert};
use vstd::arithmetic::div_mod::{
    lemma_fundamental_div_mod, lemma_fundamental_div_mod_converse_div,
    lemma_fundamental_div_mod_converse_mod, lemma_mod_bound,
};
use crate::pixel::{Direction, Mode, Pixel};
use crate::line::{process_line, process_line_spec};

verus! {

/// A rectangular RGBA pixel grid, row-major: the pixel at column x of row y
/// stands at index y * width + x of the buffer.
pub struct Image {
    pub width: usize,
    pub height: usize,
    pub pixels: Vec<Pixel>,
}

impl View for Image {
    type V = Seq<Pixel>;

    open spec fn view(&self) -> Seq<Pixel> {
        self.pixels@
    }
}

impl Image {
    /// The buffer holds exactly width * height pixels.
    pub open spec fn wf(&self) -> bool {
        self.pixels@.len() == self.width * self.height
    }

    /// Builds an image when the buffer length matches the dimensions.
    pub fn from_pixels(width: usize, height: usize, pixels: Vec<Pixel>) -> (r: Option<Image>)
        ensures
            match r {
                Some(img) => img.wf() && img.width == width && img.height == height
                    && img@ == pixels@,
                None => pixels@.len() != width * height,
            },
    {
        let l: usize = pixels.len();
        match width.checked_mul(height) {
            Some(n) => {
                if l == n {
                    Some(Image { width, height, pixels })
                } else {
                    None
                }
            },
            None => None,
        }
    }

    /// The pixel at column x of row y.
    pub fn get(&self, x: usize, y: usize) -> (p: Pixel)
        requires
            self.wf(),
            x < self.width,
            y < self.height,
        ensures
            p == self@[y * self.width + x],
    {
        // Reading the length brings its usize bound into scope for the
        // index computation's overflow proof.
        let _total: usize = self.pixels.len();
        proof {
            lemma_grid_index(self.width as int, self.height as int, x as int, y as int);
        }
        self.pixels[y * self.width + x]
    }
}

/// Row y of a row-major grid of width w.
pub open spec fn row_of(g: Seq<Pixel>, w: int, y: int) -> Seq<Pixel> {
    g.subrange(y * w, y * w + w)
}

/// Column x of a row-major grid of width w and h rows.
pub open spec fn col_of(g: Seq<Pixel>, w: int, h: int, x: int) -> Seq<Pixel> {
    Seq::new(h as nat, |y: int| g[y * w + x])
}

/// The grid after row y is rewritten as one processed line.
pub open spec fn process_row_spec(g: Seq<Pixel>, w: int, y: int, m: Mode) -> Seq<Pixel> {
    g.subrange(0, y * w) + process_line_spec(row_of(g, w, y), m)
        + g.subrange(y * w + w, g.len() as int)
}

/// The grid after column x is rewritten as one processed line.
pub open spec fn process_col_spec(g: Seq<Pixel>, w: int, h: int, x: int, m: Mode) -> Seq<
    Pixel,
> {
    let newcol = process_line_spec(col_of(g, w, h, x), m);
    Seq::new(g.len(), |k: int| if k % w == x { newcol[k / w] } else { g[k] })
}

/// The row pass from row y on: each remaining row processed top to bottom,
/// each on the grid the rows before it left.
pub open spec fn rows_pass_from(g: Seq<Pixel>, w: int, h: int, m: Mode, y: int) -> Seq<Pixel>
    decreases h - y,
{
    if y < 0 || y >= h {
        g
    } else {
        rows_pass_from(process_row_spec(g, w, y, m), w, h, m, y + 1)
    }
}

/// The whole row pass.
pub open spec fn rows_pass(g: Seq<Pixel>, w: int, h: int, m: Mode) -> Seq<Pixel> {
    rows_pass_from(g, w, h, m, 0)
}

/// The column pass from column x on: each remaining column processed left to
/// right, each on the grid the columns before it left.
pub open spec fn cols_pass_from(g: Seq<Pixel>, w: int, h: int, m: Mode, x: int) -> Seq<Pixel>
    decreases w - x,
{
    if x < 0 || x >= w {
        g
    } else {
        cols_pass_from(process_col_spec(g, w, h, x, m), w, h, m, x + 1)
    }
}

/// The whole column pass.
pub open spec fn cols_pass(g: Seq<Pixel>, w: int, h: int, m: Mode) -> Seq<Pixel> {
    cols_pass_from(g, w, h, m, 0)
}

/// The full transform: both passes, in the selected order. The second pass
/// works on the first pass's output, never on a snapshot.
pub open spec fn sort_image_spec(g: Seq<Pixel>, w: int, h: int, m: Mode, d: Direction) -> Seq<
    Pixel,
> {
    match d {
        Direction::RowsFirst => cols_pass(rows_pass(g, w, h, m), w, h, m),
        Direction::ColumnsFirst => rows_pass(cols_pass(g, w, h, m), w, h, m),
    }
}

/// In-bounds grid coordinates give an in-bounds row-major index.
proof fn lemma_grid_index(w: int, h: int, x: int, y: int)
    requires
        0 <= x < w,
        0 <= y < h,
    ensures
        0 <= y * w,
        y * w + x < h * w,
        y * w + w <= h * w,
{
    assert(0 <= y * w && y * w + x < h * w && y * w + w <= h * w) by (nonlinear_arith)
        requires
            0 <= x < w,
            0 <= y < h;
}

/// An in-bounds row-major index lies in a row below h.
proof fn lemma_index_row(k: int, w: int, h: int)
    requires
        w > 0,
        h >= 0,
        0 <= k < h * w,
    ensures
        0 <= k / w < h,
        0 <= k % w < w,
        k == (k / w) * w + (k % w),
{
    lemma_fundamental_div_mod(k, w);
    lemma_mod_bound(k, w);
    let q = k / w;
    let r = k % w;
    assert(0 <= q < h && k == q * w + r) by (nonlinear_arith)
        requires
            k == w * q + r,
            0 <= r < w,
            0 <= k < h * w,
            w > 0;
}

/// Rewrites row y in place: extracts the row, processes it as one line, and
/// writes the processed line back. The grid keeps its dimensions and its
/// contents as a multiset.
#[verifier::loop_isolation(false)]
pub fn process_row(img: &mut Image, y: usize, mode: Mode)
    requires
        old(img).wf(),
        y < old(img).height,
    ensures
        final(img).wf(),
        final(img).width == old(img).width,
        final(img).height == old(img).height,
        final(img)@ == process_row_spec(old(img)@, old(img).width as int, y as int, mode),
        final(img)@.to_multiset() == old(img)@.to_multiset(),
{
    broadcast use vstd::seq_lib::group_to_multiset_ensures;
    broadcast use vstd::multiset::group_multiset_axioms;

    let ghost g0 = img@;
    let w: usize = img.width;
    // Reading the length brings its usize bound into scope for the index
    // computations' overflow proofs.
    let _total: usize = img.pixels.len();
    let ghost n = g0.len() as int;
    if w == 0 {
        proof {
            assert(y * w == 0) by (nonlinear_arith)
                requires w == 0;
            assert(row_of(g0, 0, y as int) =~= Seq::<Pixel>::empty());
            assert(process_line_spec(row_of(g0, 0, y as int), mode).len() == 0);
            let hgt = img.height as int;
            assert(n == (w as int) * hgt);
            assert(n == 0) by (nonlinear_arith)
                requires
                    n == (w as int) * hgt,
                    w == 0;
            assert(process_row_spec(g0, 0, y as int, mode) =~= g0);
        }
        return;
    }
    proof {
        lemma_grid_index(w as int, img.height as int, w as int - 1, y as int);
    }
    let base: usize = y * w;
    let ghost b = base as int;
    // Extract the row.
    let mut rowv: Vec<Pixel> = Vec::new();
    let mut x: usize = 0;
    while x < w
        invariant
            0 <= x <= w,
            rowv@ == g0.subrange(b, b + x),
        decreases w - x,
    {
        rowv.push(img.pixels[base + x]);
        x = x + 1;
        proof {
            assert(rowv@ =~= g0.subrange(b, b + x)) by {
                assert(g0.subrange(b, b + x) =~= g0.subrange(b, b + x - 1).push(g0[b + x - 1]));
            }
        }
    }
    proof {
        assert(rowv@ == row_of(g0, w as int, y as int));
    }
    let ghost oldrow = rowv@;
    process_line(&mut rowv, mode);
    let ghost newrow = rowv@;
    // Write the processed row back.
    let mut x: usize = 0;
    while x < w
        invariant
            0 <= x <= w,
            rowv@ == newrow,
            img.width == w,
            img.height == old(img).height,
            img@.len() == n,
            forall|k: int| 0 <= k < b ==> img@[k] == g0[k],
            forall|k: int| b <= k < b + x ==> img@[k] == newrow[k - b],
            forall|k: int| b + x <= k < n ==> img@[k] == g0[k],
        decreases w - x,
    {
        img.pixels.set(base + x, rowv[x]);
        x = x + 1;
    }
    proof {
        let target = process_row_spec(g0, w as int, y as int, mode);
        assert(img@ =~= g0.subrange(0, b) + newrow + g0.subrange(b + w, n));
        assert(target == img@);
        // Contents: only the row's range changed, and the processed row is a
        // permutation of the old row.
        let a = g0.subrange(0, b);
        let c = g0.subrange(b + w, n);
        assert(g0 =~= a + oldrow + c);
        lemma_multiset_commutative(a, oldrow);
        lemma_multiset_commutative(a + oldrow, c);
        lemma_multiset_commutative(a, newrow);
        lemma_multiset_commutative(a + newrow, c);
        assert(img@.to_multiset() =~= g0.to_multiset());
    }
}

/// Rewrites column x in place: extracts the column, processes it as one
/// line, and writes the processed line back. The grid keeps its dimensions
/// and its contents as a multiset.
#[verifier::loop_isolation(false)]
pub fn process_column(img: &mut Image, x: usize, mode: Mode)
    requires
        old(img).wf(),
        x < old(img).width,
    ensures
        final(img).wf(),
        final(img).width == old(img).width,
        final(img).height == old(img).height,
        final(img)@ == process_col_spec(
            old(img)@, old(img).width as int, old(img).height as int, x as int, mode),
        final(img)@.to_multiset() == old(img)@.to_multiset(),
{
    broadcast use vstd::seq_lib::group_to_multiset_ensures;
    broadcast use vstd::multiset::group_multiset_axioms;

    let ghost g0 = img@;
    let w: usize = img.width;
    let h: usize = img.height;
    // Reading the length brings its usize bound into scope for the index
    // computations' overflow proofs.
    let _total: usize = img.pixels.len();
    let ghost n = g0.len() as int;
    let ghost wi = w as int;
    let ghost xi = x as int;
    let ghost oldcol = col_of(g0, w as int, h as int, x as int);
    // Extract the column.
    let mut colv: Vec<Pixel> = Vec::new();
    let mut y: usize = 0;
    while y < h
        invariant
            0 <= y <= h,
            colv@.len() == y,
            forall|j: int| 0 <= j < y ==> colv@[j] == g0[j * w + x],
        decreases h - y,
    {
        proof {
            lemma_grid_index(w as int, h as int, x as int, y as int);
        }
        colv.push(img.pixels[y * w + x]);
        y = y + 1;
    }
    proof {
        assert(colv@ =~= oldcol);
    }
    process_line(&mut colv, mode);
    let ghost newcol = colv@;
    // Write the processed column back.
    let mut y: usize = 0;
    while y < h
        invariant
            0 <= y <= h,
            colv@ == newcol,
            img.width == w,
            img.height == h,
            img@.len() == n,
            forall|k: int|
                0 <= k < n ==> img@[k] == (if k % wi == xi && k / wi < y {
                    newcol[k / wi]
                } else {
                    g0[k]
                }),
            img@.to_multiset().add(oldcol.subrange(0, y as int).to_multiset())
                == g0.to_multiset().add(newcol.subrange(0, y as int).to_multiset()),
        decreases h - y,
    {
        proof {
            lemma_grid_index(w as int, h as int, x as int, y as int);
        }
        let idx: usize = y * w + x;
        let ghost prev = img@;
        img.pixels.set(idx, colv[y]);
        y = y + 1;
        proof {
            let yy = y as int - 1;
            let i = idx as int;
            lemma_fundamental_div_mod_converse_div(i, w as int, yy, x as int);
            lemma_fundamental_div_mod_converse_mod(i, w as int, yy, x as int);
            assert(i / wi == yy && i % wi == xi);
            assert(prev[i] == g0[i] && g0[i] == oldcol[yy]);
            // Each in-bounds index is its row's base plus its column.
            assert forall|k: int| 0 <= k < n implies img@[k] == (if k % wi == xi && k / wi < y {
                newcol[k / wi]
            } else {
                g0[k]
            }) by {
                lemma_index_row(k, wi, h as int);
                if k != i {
                    if k % wi == xi && k / wi == yy {
                        assert(k == (k / wi) * wi + (k % wi));
                        assert(k == i);
                    }
                }
            }
            // One write moves one old pixel out and one processed pixel in.
            lemma_update_is_remove_insert(prev, i, newcol[yy]);
            let oc0 = oldcol.subrange(0, yy);
            let oc1 = oldcol.subrange(0, yy + 1);
            let nc0 = newcol.subrange(0, yy);
            let nc1 = newcol.subrange(0, yy + 1);
            assert(oc1 =~= oc0.push(oldcol[yy]));
            assert(nc1 =~= nc0.push(newcol[yy]));
            assert(prev.contains(oldcol[yy]));
            assert(prev.to_multiset().count(oldcol[yy]) > 0);
            let ov = oldcol[yy];
            let nv = newcol[yy];
            assert forall|p: Pixel| img@.to_multiset().add(oc1.to_multiset()).count(p)
                == g0.to_multiset().add(nc1.to_multiset()).count(p) by {
                let one_ov: int = if p == ov { 1 } else { 0 };
                let one_nv: int = if p == nv { 1 } else { 0 };
                assert(prev.to_multiset().add(oc0.to_multiset()).count(p)
                    == g0.to_multiset().add(nc0.to_multiset()).count(p));
                assert(img@.to_multiset().count(p)
                    == prev.to_multiset().remove(ov).insert(nv).count(p));
                assert(prev.to_multiset().remove(ov).count(p)
                    == prev.to_multiset().count(p) - one_ov);
                assert(img@.to_multiset().count(p)
                    == prev.to_multiset().count(p) - one_ov + one_nv);
                assert(oc1.to_multiset().count(p) == oc0.to_multiset().count(p) + one_ov);
                assert(nc1.to_multiset().count(p) == nc0.to_multiset().count(p) + one_nv);
            }
            assert(img@.to_multiset().add(oc1.to_multiset())
                =~= g0.to_multiset().add(nc1.to_multiset()));
        }
    }
    proof {
        // The whole column is written: the grid is the specified rewrite.
        let target = process_col_spec(g0, w as int, h as int, x as int, mode);
        assert(img@ =~= target) by {
            assert forall|k: int| 0 <= k < n implies img@[k] == target[k] by {
                lemma_index_row(k, w as int, h as int);
            }
        }
        // And its contents are unchanged as a multiset.
        assert(oldcol.subrange(0, h as int) =~= oldcol);
        assert(newcol.subrange(0, h as int) =~= newcol);
        assert(newcol.to_multiset() == oldcol.to_multiset());
        assert forall|p: Pixel| img@.to_multiset().count(p) == g0.to_multiset().count(p) by {
            assert(img@.to_multiset().add(oldcol.to_multiset()).count(p)
                == g0.to_multiset().add(newcol.to_multiset()).count(p));
        }
        assert(img@.to_multiset() =~= g0.to_multiset());
    }
}

/// Runs the row pass: every row processed top to bottom.
#[verifier::loop_isolation(false)]
pub fn row_pass(img: &mut Image, mode: Mode)
    requires
        old(img).wf(),
    ensures
        final(img).wf(),
        final(img).width == old(img).width,
        final(img).height == old(img).height,
        final(img)@ == rows_pass(old(img)@, old(img).width as int, old(img).height as int, mode),
        final(img)@.to_multiset() == old(img)@.to_multiset(),
{
    let ghost g0 = img@;
    let ghost w = img.width as int;
    let h: usize = img.height;
    let mut y: usize = 0;
    while y < h
        invariant
            0 <= y <= h,
            img.wf(),
            img.width == old(img).width,
            img.height == h,
            rows_pass_from(img@, w, h as int, mode, y as int) == rows_pass(g0, w, h as int, mode),
            img@.to_multiset() == g0.to_multiset(),
        decreases h - y,
    {
        process_row(img, y, mode);
        y = y + 1;
    }
}

/// Runs the column pass: every column processed left to right.
#[verifier::loop_isolation(false)]
pub fn col_pass(img: &mut Image, mode: Mode)
    requires
        old(img).wf(),
    ensures
        final(img).wf(),
        final(img).width == old(img).width,
        final(img).height == old(img).height,
        final(img)@ == cols_pass(old(img)@, old(img).width as int, old(img).height as int, mode),
        final(img)@.to_multiset() == old(img)@.to_multiset(),
{
    let ghost g0 = img@;
    let w: usize = img.width;
    let ghost h = img.height as int;
    let mut x: usize = 0;
    while x < w
        invariant
            0 <= x <= w,
            img.wf(),
            img.width == w,
            img.height == old(img).height,
            cols_pass_from(img@, w as int, h, mode, x as int) == cols_pass(g0, w as int, h, mode),
            img@.to_multiset() == g0.to_multiset(),
        decreases w - x,
    {
        process_column(img, x, mode);
        x = x + 1;
    }
}

/// The whole transform: both passes, in the order the direction selects.
/// The output grid has the input's dimensions and holds exactly the input's
/// pixels, rearranged.
pub fn sort_image(img: &mut Image, mode: Mode, direction: Direction)
    requires
        old(img).wf(),
    ensures
        final(img).wf(),
        final(img).width == old(img).width,
        final(img).height == old(img).height,
        final(img)@ == sort_image_spec(
            old(img)@, old(img).width as int, old(img).height as int, mode, direction),
        final(img)@.to_multiset() == old(img)@.to_multiset(),
{
    match direction {
        Direction::ColumnsFirst => {
            col_pass(img, mode);
            row_pass(img, mode);
        },
        Direction::RowsFirst => {
            row_pass(img, mode);
            col_pass(img, mode);
        },
    }
}

/// The row pass leaves an empty grid as it is.
proof fn lemma_rows_pass_empty(g: Seq<Pixel>, h: int, m: Mode, y: int)
    requires
        g.len() == 0,
    ensures
        rows_pass_from(g, 0, h, m, y) == g,
    decreases h - y,
{
    if y < 0 || y >= h {
    } else {
        assert(y * 0 == 0) by (nonlinear_arith);
        assert(row_of(g, 0, y) =~= Seq::<Pixel>::empty());
        assert(process_line_spec(row_of(g, 0, y), m).len() == 0);
        assert(process_row_spec(g, 0, y, m) =~= g);
        lemma_rows_pass_empty(g, h, m, y + 1);
    }
}

/// The column pass leaves a grid of no rows as it is.
proof fn lemma_cols_pass_empty(g: Seq<Pixel>, w: int, m: Mode, x: int)
    requires
        g.len() == 0,
    ensures
        cols_pass_from(g, w, 0, m, x) == g,
    decreases w - x,
{
    if x < 0 || x >= w {
    } else {
        assert(process_col_spec(g, w, 0, x, m) =~= g);
        lemma_cols_pass_empty(g, w, m, x + 1);
    }
}

/// A degenerate image — zero width or zero height — comes back unchanged.
pub proof fn lemma_degenerate_unchanged(g: Seq<Pixel>, w: int, h: int, m: Mode, d: Direction)
    requires
        w >= 0,
        h >= 0,
        g.len() == w * h,
        w == 0 || h == 0,
    ensures
        sort_image_spec(g, w, h, m, d) == g,
{
    assert(g.len() == 0) by (nonlinear_arith)
        requires
            g.len() == w * h,
            w == 0 || h == 0;
    if w == 0 {
        // The row pass walks empty rows; the column pass has no columns.
        lemma_rows_pass_empty(g, h, m, 0);
    } else {
        // The row pass has no rows; the column pass walks empty columns.
        lemma_cols_pass_empty(g, w, m, 0);
    }
}

} // verus!
