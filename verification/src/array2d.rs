use std::sync::Arc;
use vstd::prelude::*;

verus! {

/// The cells of row `idx` in a row-major sequence of rows of `width` cells.
pub open spec fn row_of<T>(cells: Seq<T>, width: nat, idx: nat) -> Seq<T> {
    cells.subrange((width * idx) as int, (width * (idx + 1)) as int)
}

/// Index of the cell at column `x`, row `y` in a row-major grid of rows of `width` cells.
pub open spec fn cell_index(width: nat, x: nat, y: nat) -> int {
    (y * width + x) as int
}

/// Column `x`, row `y` lie inside a grid of `width` columns and `height` rows.
pub open spec fn in_grid(width: nat, height: nat, x: nat, y: nat) -> bool {
    x < width && y < height
}

/// The cells of a sequence of rows, laid one after another.
pub open spec fn flatten_rows<T, const W: usize>(rows: Seq<[T; W]>) -> Seq<T>
    decreases rows.len(),
{
    if rows.len() == 0 {
        Seq::empty()
    } else {
        flatten_rows(rows.drop_last()) + rows.last()@
    }
}

proof fn lemma_row_bounds(width: nat, idx: nat)
    ensures
        width * idx <= width * (idx + 1),
        width * (idx + 1) == width * idx + width,
{
    assert(width * (idx + 1) == width * idx + width) by (nonlinear_arith);
}

proof fn lemma_next_row(width: nat, y: nat)
    ensures
        (y + 1) * width == y * width + width,
{
    assert((y + 1) * width == y * width + width) by (nonlinear_arith);
}

proof fn lemma_cell_in_grid(width: nat, height: nat, x: nat, y: nat)
    requires
        x < width,
        y < height,
    ensures
        y * width + x < width * height,
        (y + 1) * width <= width * height,
{
    assert((y + 1) * width <= height * width) by (nonlinear_arith)
        requires
            y < height,
    ;
    assert(height * width == width * height) by (nonlinear_arith);
    lemma_next_row(width, y);
}

proof fn lemma_cell_before_row(width: nat, x: nat, y: nat, row: nat)
    requires
        x < width,
        y < row,
    ensures
        y * width + x < row * width,
{
    assert(y * width + width <= row * width) by (nonlinear_arith)
        requires
            y < row,
    ;
}

proof fn lemma_flatten_len<T, const W: usize>(rows: Seq<[T; W]>)
    ensures
        flatten_rows(rows).len() == rows.len() * W,
    decreases rows.len(),
{
    if rows.len() > 0 {
        lemma_flatten_len(rows.drop_last());
        assert((rows.len() - 1) * W + W == rows.len() * W) by (nonlinear_arith);
    }
}

/// Calls `func` on every cell of a row-major grid, row by row, and collects the results.
fn kernel_cells<T, U, F: FnMut(&T, usize, usize) -> U>(
    cells: &[T],
    width: usize,
    height: usize,
    func: F,
) -> (r: Array2d<U>)
    requires
        cells@.len() == width * height,
        forall|x: usize, y: usize|
            x < width && y < height ==> #[trigger] call_requires(
                func,
                (&cells@[cell_index(width as nat, x as nat, y as nat)], x, y),
            ),
    ensures
        r.wf(),
        r.spec_width() == width,
        r.spec_height() == height,
        forall|x: usize, y: usize|
            x < width && y < height ==> #[trigger] call_ensures(
                func,
                (&cells@[cell_index(width as nat, x as nat, y as nat)], x, y),
                r.cells()[cell_index(width as nat, x as nat, y as nat)],
            ),
{
    let _n = cells.len();
    let mut f = func;
    let mut out: Vec<U> = Vec::new();
    let mut y: usize = 0;
    while y < height
        invariant
            y <= height,
            f == func,
            cells@.len() == width * height,
            width * height <= usize::MAX,
            out@.len() == y * width,
            forall|x: usize, y: usize|
                x < width && y < height ==> #[trigger] call_requires(
                    func,
                    (&cells@[cell_index(width as nat, x as nat, y as nat)], x, y),
                ),
            forall|xx: usize, yy: usize|
                xx < width && yy < y ==> #[trigger] call_ensures(
                    func,
                    (&cells@[cell_index(width as nat, xx as nat, yy as nat)], xx, yy),
                    out@[cell_index(width as nat, xx as nat, yy as nat)],
                ),
        decreases height - y,
    {
        let mut x: usize = 0;
        while x < width
            invariant
                y < height,
                x <= width,
                f == func,
                cells@.len() == width * height,
                width * height <= usize::MAX,
                out@.len() == y * width + x,
                forall|x: usize, y: usize|
                    x < width && y < height ==> #[trigger] call_requires(
                        func,
                        (&cells@[cell_index(width as nat, x as nat, y as nat)], x, y),
                    ),
                forall|xx: usize, yy: usize|
                    xx < width && yy < y ==> #[trigger] call_ensures(
                        func,
                        (&cells@[cell_index(width as nat, xx as nat, yy as nat)], xx, yy),
                        out@[cell_index(width as nat, xx as nat, yy as nat)],
                    ),
                forall|xx: usize|
                    xx < x ==> #[trigger] call_ensures(
                        func,
                        (&cells@[cell_index(width as nat, xx as nat, y as nat)], xx, y),
                        out@[cell_index(width as nat, xx as nat, y as nat)],
                    ),
            decreases width - x,
        {
            proof {
                lemma_cell_in_grid(width as nat, height as nat, x as nat, y as nat);
            }
            let i = y * width + x;
            assert(call_requires(f, (&cells@[cell_index(width as nat, x as nat, y as nat)], x, y)));
            let tmp = f(&cells[i], x, y);
            let ghost prev = out@;
            out.push(tmp);
            proof {
                assert forall|xx: usize, yy: usize|
                    xx < width && yy < y implies #[trigger] call_ensures(
                        func,
                        (&cells@[cell_index(width as nat, xx as nat, yy as nat)], xx, yy),
                        out@[cell_index(width as nat, xx as nat, yy as nat)],
                    ) by {
                    lemma_cell_before_row(width as nat, xx as nat, yy as nat, y as nat);
                    assert(out@[cell_index(width as nat, xx as nat, yy as nat)]
                        == prev[cell_index(width as nat, xx as nat, yy as nat)]);
                }
                assert(out@[cell_index(width as nat, x as nat, y as nat)] == tmp);
            }
            x = x + 1;
        }
        proof {
            lemma_next_row(width as nat, y as nat);
            assert forall|xx: usize, yy: usize|
                xx < width && yy < y + 1 implies #[trigger] call_ensures(
                    func,
                    (&cells@[cell_index(width as nat, xx as nat, yy as nat)], xx, yy),
                    out@[cell_index(width as nat, xx as nat, yy as nat)],
                ) by {
                if yy == y {
                    assert(call_ensures(
                        func,
                        (&cells@[cell_index(width as nat, xx as nat, y as nat)], xx, y),
                        out@[cell_index(width as nat, xx as nat, y as nat)],
                    ));
                }
            }
        }
        y = y + 1;
    }
    proof {
        assert(height * width == width * height) by (nonlinear_arith);
    }
    Array2d { values: out, width, height }
}

/// Calls `f` on the cells at positions `lo..hi` of a row-major grid of `width * height`
/// cells, in order, with each cell's column and row, letting it change the cell, and appends
/// what each call returns to `out`; leaves the other cells alone and hands `f` back.
fn kernel_range_mut<T, U, F: FnMut(&mut T, usize, usize) -> U>(
    cells: &mut [T],
    width: usize,
    height: usize,
    lo: usize,
    hi: usize,
    f: F,
    out: &mut Vec<U>,
) -> (r: F)
    requires
        old(cells)@.len() == width * height,
        lo <= hi <= old(cells)@.len(),
        old(out)@.len() == lo,
        forall|c: &mut T, x: usize, y: usize|
            x < width && y < height ==> #[trigger] call_requires(f, (c, x, y)),
    ensures
        r == f,
        final(cells)@.len() == old(cells)@.len(),
        final(out)@.len() == hi,
        forall|j: int| 0 <= j < lo ==> #[trigger] final(out)@[j] == old(out)@[j],
        forall|j: int|
            0 <= j < old(cells)@.len() && !(lo <= j < hi) ==> #[trigger] final(cells)@[j] == old(
                cells,
            )@[j],
        forall|x: usize, y: usize|
            x < width && lo <= #[trigger] cell_index(width as nat, x as nat, y as nat) < hi ==> exists|
                c: &mut T,
            |
                #[trigger] call_ensures(
                    f,
                    (c, x, y),
                    final(out)@[cell_index(width as nat, x as nat, y as nat)],
                ) && *c == old(cells)@[cell_index(width as nat, x as nat, y as nat)] && *final(c)
                    == final(cells)@[cell_index(width as nat, x as nat, y as nat)],
    decreases hi - lo,
{
    if hi - lo == 0 {
        return f;
    }
    if hi - lo == 1 {
        let j = lo;
        proof {
            lemma_cell_of_index(width as nat, height as nat, j as int);
        }
        let x = j % width;
        let y = j / width;
        let mut g = f;
        let v = g(&mut cells[j], x, y);
        out.push(v);
        assert forall|x: usize, y: usize|
            x < width && lo <= #[trigger] cell_index(width as nat, x as nat, y as nat) < hi implies exists|
                c: &mut T,
            |
                #[trigger] call_ensures(
                    f,
                    (c, x, y),
                    out@[cell_index(width as nat, x as nat, y as nat)],
                ) && *c == old(cells)@[cell_index(width as nat, x as nat, y as nat)] && *final(c)
                    == final(cells)@[cell_index(width as nat, x as nat, y as nat)] by {
            assert(out@[j as int] == v);
        }
        return g;
    }
    let mid = lo + (hi - lo) / 2;
    let g = kernel_range_mut(cells, width, height, lo, mid, f, out);
    let ghost out1 = out@;
    let g2 = kernel_range_mut(cells, width, height, mid, hi, g, out);
    assert forall|x: usize, y: usize|
            x < width && lo <= #[trigger] cell_index(width as nat, x as nat, y as nat) < hi implies exists|
                c: &mut T,
            |
                #[trigger] call_ensures(
                    f,
                    (c, x, y),
                    out@[cell_index(width as nat, x as nat, y as nat)],
                ) && *c == old(cells)@[cell_index(width as nat, x as nat, y as nat)] && *final(c)
                    == final(cells)@[cell_index(width as nat, x as nat, y as nat)] by {
        if cell_index(width as nat, x as nat, y as nat) < mid {
            assert(out@[cell_index(width as nat, x as nat, y as nat)] == out1[cell_index(
                width as nat,
                x as nat,
                y as nat,
            )]);
        }
    }
    g2
}

/// Calls `func` on every cell of a row-major grid, row by row, letting it change the cell,
/// and collects the results in a grid of the same shape.
fn kernel_cells_mut<T, U, F: FnMut(&mut T, usize, usize) -> U>(
    cells: &mut [T],
    width: usize,
    height: usize,
    func: F,
) -> (r: Array2d<U>)
    requires
        old(cells)@.len() == width * height,
        forall|c: &mut T, x: usize, y: usize|
            x < width && y < height ==> #[trigger] call_requires(func, (c, x, y)),
    ensures
        r.wf(),
        r.spec_width() == width,
        r.spec_height() == height,
        final(cells)@.len() == old(cells)@.len(),
        forall|x: usize, y: usize|
            x < width && 0 <= #[trigger] cell_index(width as nat, x as nat, y as nat) < old(
                cells,
            )@.len() ==> exists|c: &mut T|
                #[trigger] call_ensures(
                    func,
                    (c, x, y),
                    r.cells()[cell_index(width as nat, x as nat, y as nat)],
                ) && *c == old(cells)@[cell_index(width as nat, x as nat, y as nat)] && *final(c)
                    == final(cells)@[cell_index(width as nat, x as nat, y as nat)],
{
    let n = cells.len();
    let mut out: Vec<U> = Vec::new();
    let _ = kernel_range_mut(cells, width, height, 0, n, func, &mut out);
    proof {
        assert(height * width == width * height) by (nonlinear_arith);
    }
    Array2d { values: out, width, height }
}

/// Position `j` of a row-major grid of `width * height` cells lies at column `j % width`,
/// row `j / width`, and no other column and row lead to it.
proof fn lemma_cell_of_index(width: nat, height: nat, j: int)
    requires
        0 <= j < width * height,
    ensures
        width > 0,
        j % (width as int) < width,
        j / (width as int) < height,
        0 <= j / (width as int),
        cell_index(width, (j % (width as int)) as nat, (j / (width as int)) as nat) == j,
        forall|x: nat, y: nat|
            x < width && #[trigger] cell_index(width, x, y) == j ==> x == j % (width as int) && y == j
                / (width as int),
{
    if width == 0 {
        assert(width * height == 0) by (nonlinear_arith)
            requires
                width == 0,
        ;
    }
    let w = width as int;
    let q = j / w;
    let r = j % w;
    vstd::arithmetic::div_mod::lemma_fundamental_div_mod(j, w);
    assert(q >= 0) by (nonlinear_arith)
        requires
            j == w * q + r,
            0 <= r < w,
            j >= 0,
    ;
    assert(q < height) by (nonlinear_arith)
        requires
            j == w * q + r,
            0 <= r,
            j < w * height,
            w > 0,
    ;
    assert(q * w == w * q) by (nonlinear_arith);
    assert forall|x: nat, y: nat| x < width && #[trigger] cell_index(width, x, y) == j implies x == r
        && y == q by {
        vstd::arithmetic::div_mod::lemma_fundamental_div_mod_converse(j, w, y as int, x as int);
    }
}

/// Calls `f` on the cells at positions `lo..hi` of a row-major grid of `width * height`
/// cells, in order, with each cell's column and row, letting it change the cell; leaves the
/// other cells alone and hands `f` back.
fn kernel_range_on<T, F: FnMut(&mut T, usize, usize)>(
    cells: &mut [T],
    width: usize,
    height: usize,
    lo: usize,
    hi: usize,
    f: F,
) -> (r: F)
    requires
        old(cells)@.len() == width * height,
        lo <= hi <= old(cells)@.len(),
        forall|c: &mut T, x: usize, y: usize|
            x < width && y < height ==> #[trigger] call_requires(f, (c, x, y)),
    ensures
        r == f,
        final(cells)@.len() == old(cells)@.len(),
        forall|j: int|
            0 <= j < old(cells)@.len() && !(lo <= j < hi) ==> #[trigger] final(cells)@[j] == old(
                cells,
            )@[j],
        forall|x: usize, y: usize|
            x < width && lo <= #[trigger] cell_index(width as nat, x as nat, y as nat) < hi ==> exists|
                c: &mut T,
            |
                #[trigger] call_ensures(f, (c, x, y), ()) && *c == old(cells)@[cell_index(
                    width as nat,
                    x as nat,
                    y as nat,
                )] && *final(c) == final(cells)@[cell_index(width as nat, x as nat, y as nat)],
    decreases hi - lo,
{
    if hi - lo == 0 {
        return f;
    }
    if hi - lo == 1 {
        let j = lo;
        proof {
            lemma_cell_of_index(width as nat, height as nat, j as int);
        }
        let x = j % width;
        let y = j / width;
        let mut g = f;
        g(&mut cells[j], x, y);
        return g;
    }
    let mid = lo + (hi - lo) / 2;
    let g = kernel_range_on(cells, width, height, lo, mid, f);
    kernel_range_on(cells, width, height, mid, hi, g)
}

/// The elements of an array, in order.
#[verifier::external_body]
fn vec_from_array<T, const N: usize>(a: [T; N]) -> (v: Vec<T>)
    ensures
        v@ == a@,
{
    Vec::from(a)
}

/// Lays the rows of a two-dimensional array one after another.
fn flatten_array<T, const W: usize, const H: usize>(values: [[T; W]; H]) -> (v: Vec<T>)
    ensures
        v@ == flatten_rows(values@),
        v@.len() == W * H,
{
    let rows = vec_from_array(values);
    let mut out: Vec<T> = Vec::new();
    let ghost all = rows@;
    let mut rest = rows;
    let mut taken: usize = 0;
    proof {
        assert(all.take(0) =~= Seq::<[T; W]>::empty());
    }
    while taken < H
        invariant
            taken <= H,
            all.len() == H,
            all == values@,
            rest@ == all.skip(taken as int),
            out@ == flatten_rows(all.take(taken as int)),
        decreases H - taken,
    {
        let row = rest.remove(0);
        let mut row_cells = vec_from_array(row);
        out.append(&mut row_cells);
        proof {
            assert(all.take(taken + 1).drop_last() =~= all.take(taken as int));
            assert(all.skip(taken as int).skip(1) =~= all.skip(taken + 1));
        }
        taken = taken + 1;
    }
    proof {
        assert(all.take(H as int) =~= all);
        lemma_flatten_len(all);
        assert(H * W == W * H) by (nonlinear_arith);
    }
    out
}

/// A grid of `width * height` cells stored row by row.
#[derive(Clone, Debug)]
pub struct Array2d<T> {
    values: Vec<T>,
    width: usize,
    height: usize,
}

impl<T> Array2d<T> {
    /// The cells, row by row.
    pub closed spec fn cells(&self) -> Seq<T> {
        self.values@
    }

    /// The number of columns.
    pub closed spec fn spec_width(&self) -> usize {
        self.width
    }

    /// The number of rows.
    pub closed spec fn spec_height(&self) -> usize {
        self.height
    }

    /// The grid holds exactly `width * height` cells.
    pub open spec fn wf(&self) -> bool {
        self.cells().len() == self.spec_width() * self.spec_height()
    }

    /// Builds a grid from an array of rows.
    pub fn from_array<const WIDTH: usize, const HEIGHT: usize>(values: [[T; WIDTH]; HEIGHT]) -> (r:
        Self)
        ensures
            r.wf(),
            r.cells() == flatten_rows(values@),
            r.spec_width() == WIDTH,
            r.spec_height() == HEIGHT,
    {
        let flat = flatten_array(values);
        Array2d { values: flat, width: WIDTH, height: HEIGHT }
    }

    /// Builds a grid from its cells, row by row.
    pub fn from_vec(v: Vec<T>, width: usize, height: usize) -> (r: Self)
        requires
            v@.len() == width * height,
        ensures
            r.wf(),
            r.cells() == v@,
            r.spec_width() == width,
            r.spec_height() == height,
    {
        Array2d { values: v, width, height }
    }

    /// Builds a grid from its cells, row by row.
    pub fn new(x: Vec<T>, width: usize, height: usize) -> (r: Self)
        requires
            x@.len() == width * height,
        ensures
            r.wf(),
            r.cells() == x@,
            r.spec_width() == width,
            r.spec_height() == height,
    {
        Array2d { values: x, width, height }
    }

    /// The row `idx`.
    pub fn get(&self, idx: usize) -> (r: &[T])
        requires
            idx < usize::MAX,
            self.spec_width() * (idx + 1) <= self.cells().len(),
        ensures
            r@ == row_of(self.cells(), self.spec_width() as nat, idx as nat),
    {
        let _n = self.values.len();
        proof {
            lemma_row_bounds(self.width as nat, idx as nat);
        }
        let start = self.width * idx;
        let end = self.width * (idx + 1);
        &self.values.as_slice()[start..end]
    }

    /// The cell at column `x` of row `y`.
    pub fn get_at(&self, x: usize, y: usize) -> (r: &T)
        requires
            cell_index(self.spec_width() as nat, x as nat, y as nat) < self.cells().len(),
        ensures
            *r == self.cells()[cell_index(self.spec_width() as nat, x as nat, y as nat)],
    {
        let _n = self.values.len();
        &self.values[y * self.width + x]
    }

    /// The row `idx`, for writing.
    pub fn get_mut(&mut self, idx: usize) -> (r: &mut [T])
        requires
            idx < usize::MAX,
            old(self).spec_width() * (idx + 1) <= old(self).cells().len(),
        ensures
            r@ == row_of(old(self).cells(), old(self).spec_width() as nat, idx as nat),
            final(self).cells() == old(self).cells().subrange(0, old(self).spec_width() * idx)
                + final(r)@ + old(self).cells().subrange(
                old(self).spec_width() * (idx + 1),
                old(self).cells().len() as int,
            ),
            final(self).spec_width() == old(self).spec_width(),
            final(self).spec_height() == old(self).spec_height(),
    {
        let _n = self.values.len();
        proof {
            lemma_row_bounds(self.width as nat, idx as nat);
        }
        let start = self.width * idx;
        let w = self.width;
        let all = self.values.as_mut_slice();
        let (_, rest) = all.split_at_mut(start);
        let (row, _) = rest.split_at_mut(w);
        row
    }

    /// The cell at column `x` of row `y`, for writing.
    pub fn get_at_mut(&mut self, x: usize, y: usize) -> (r: &mut T)
        requires
            cell_index(old(self).spec_width() as nat, x as nat, y as nat) < old(self).cells().len(),
        ensures
            *r == old(self).cells()[cell_index(old(self).spec_width() as nat, x as nat, y as nat)],
            final(self).cells() == old(self).cells().update(
                cell_index(old(self).spec_width() as nat, x as nat, y as nat),
                *final(r),
            ),
            final(self).spec_width() == old(self).spec_width(),
            final(self).spec_height() == old(self).spec_height(),
    {
        let _n = self.values.len();
        let i = y * self.width + x;
        &mut self.values[i]
    }

    /// The number of columns.
    pub fn width(&self) -> (r: usize)
        ensures
            r == self.spec_width(),
    {
        self.width
    }

    /// The number of rows.
    pub fn height(&self) -> (r: usize)
        ensures
            r == self.spec_height(),
    {
        self.height
    }

    /// A grid that shares its cells between clones.
    pub fn to_shared(self) -> (r: SharedArray2d<T>)
        ensures
            r.cells() == self.cells(),
            r.spec_width() == self.spec_width(),
            r.spec_height() == self.spec_height(),
    {
        SharedArray2d { values: Arc::new(self.values), width: self.width, height: self.height }
    }

    /// A read-only view of the grid.
    pub fn as_slice<'a>(&'a self) -> (r: Slice2d<'a, T>)
        ensures
            r.cells() == self.cells(),
            r.spec_width() == self.spec_width(),
            r.spec_height() == self.spec_height(),
    {
        Slice2d { values: self.values.as_slice(), width: self.width, height: self.height }
    }

    /// A writable view of the grid; what is written through it is what the grid holds once
    /// the view is done with.
    pub fn as_slice_mut<'a>(&'a mut self) -> (r: SliceMut2d<'a, T>)
        ensures
            r.cells() == old(self).cells(),
            r.spec_width() == old(self).spec_width(),
            r.spec_height() == old(self).spec_height(),
            final(self).cells() == final(r.values)@,
            final(self).spec_width() == old(self).spec_width(),
            final(self).spec_height() == old(self).spec_height(),
    {
        let w = self.width;
        let h = self.height;
        SliceMut2d { values: self.values.as_mut_slice(), width: w, height: h }
    }

    /// Calls `func` on every cell, row by row, with the cell's column and row,
    /// and collects the results in a grid of the same shape.
    pub fn kernel<U, FN: FnMut(&T, usize, usize) -> U>(&self, func: FN) -> (r: Array2d<U>)
        requires
            self.wf(),
            forall|x: usize, y: usize|
                x < self.spec_width() && y < self.spec_height() ==> #[trigger] call_requires(
                    func,
                    (&self.cells()[cell_index(self.spec_width() as nat, x as nat, y as nat)], x, y),
                ),
        ensures
            r.wf(),
            r.spec_width() == self.spec_width(),
            r.spec_height() == self.spec_height(),
            forall|x: usize, y: usize|
                x < self.spec_width() && y < self.spec_height() ==> #[trigger] call_ensures(
                    func,
                    (&self.cells()[cell_index(self.spec_width() as nat, x as nat, y as nat)], x, y),
                    r.cells()[cell_index(self.spec_width() as nat, x as nat, y as nat)],
                ),
    {
        kernel_cells(self.values.as_slice(), self.width, self.height, func)
    }

    /// Calls `func` on every cell, row by row, with the cell's column and row, letting it
    /// change the cell, and collects the results in a grid of the same shape.
    pub fn kernel_mut<U, FN: FnMut(&mut T, usize, usize) -> U>(&mut self, func: FN) -> (r: Array2d<U>)
        requires
            old(self).wf(),
            forall|c: &mut T, x: usize, y: usize|
                x < old(self).spec_width() && y < old(self).spec_height() ==> #[trigger] call_requires(func, (c, x, y)),
        ensures
            r.wf(),
            r.spec_width() == old(self).spec_width(),
            r.spec_height() == old(self).spec_height(),
            final(self).wf(),
            final(self).spec_width() == old(self).spec_width(),
            final(self).spec_height() == old(self).spec_height(),
            forall|x: usize, y: usize|
                #[trigger] in_grid(
                    old(self).spec_width() as nat,
                    old(self).spec_height() as nat,
                    x as nat,
                    y as nat,
                ) ==> exists|c: &mut T|
                    #[trigger] call_ensures(
                        func,
                        (c, x, y),
                        r.cells()[cell_index(old(self).spec_width() as nat, x as nat, y as nat)],
                    ) && *c == old(self).cells()[cell_index(
                        old(self).spec_width() as nat,
                        x as nat,
                        y as nat,
                    )] && *final(c) == final(self).cells()[cell_index(
                        old(self).spec_width() as nat,
                        x as nat,
                        y as nat,
                    )],
    {
        let w = self.width;
        let h = self.height;
        let n = self.values.len();
        let r = kernel_cells_mut(self.values.as_mut_slice(), w, h, func);
        assert forall|x: usize, y: usize|
            #[trigger] in_grid(
                old(self).spec_width() as nat,
                old(self).spec_height() as nat,
                x as nat,
                y as nat,
            ) implies exists|c: &mut T|
                #[trigger] call_ensures(
                    func,
                    (c, x, y),
                    r.cells()[cell_index(old(self).spec_width() as nat, x as nat, y as nat)],
                ) && *c == old(self).cells()[cell_index(
                    old(self).spec_width() as nat,
                    x as nat,
                    y as nat,
                )] && *final(c) == final(self).cells()[cell_index(
                    old(self).spec_width() as nat,
                    x as nat,
                    y as nat,
                )] by {
            lemma_cell_in_grid(w as nat, h as nat, x as nat, y as nat);
            assert(0 <= cell_index(w as nat, x as nat, y as nat) < n);
        }
        r
    }

    /// Calls `func` on every cell, row by row, with the cell's column and row, letting it
    /// change the cell.
    pub fn kernel_on<FN: FnMut(&mut T, usize, usize)>(&mut self, func: FN)
        requires
            old(self).wf(),
            forall|c: &mut T, x: usize, y: usize|
                x < old(self).spec_width() && y < old(self).spec_height() ==> #[trigger] call_requires(func, (c, x, y)),
        ensures
            final(self).wf(),
            final(self).spec_width() == old(self).spec_width(),
            final(self).spec_height() == old(self).spec_height(),
            forall|x: usize, y: usize|
                #[trigger] in_grid(
                    old(self).spec_width() as nat,
                    old(self).spec_height() as nat,
                    x as nat,
                    y as nat,
                ) ==> exists|c: &mut T|
                    #[trigger] call_ensures(func, (c, x, y), ()) && *c == old(self).cells()[cell_index(
                        old(self).spec_width() as nat,
                        x as nat,
                        y as nat,
                    )] && *final(c) == final(self).cells()[cell_index(
                        old(self).spec_width() as nat,
                        x as nat,
                        y as nat,
                    )],
    {
        let w = self.width;
        let h = self.height;
        let n = self.values.len();
        let _ = kernel_range_on(self.values.as_mut_slice(), w, h, 0, n, func);
        assert forall|x: usize, y: usize|
            #[trigger] in_grid(
                old(self).spec_width() as nat,
                old(self).spec_height() as nat,
                x as nat,
                y as nat,
            ) implies exists|c: &mut T|
                #[trigger] call_ensures(func, (c, x, y), ()) && *c == old(self).cells()[cell_index(
                    old(self).spec_width() as nat,
                    x as nat,
                    y as nat,
                )] && *final(c) == final(self).cells()[cell_index(
                    old(self).spec_width() as nat,
                    x as nat,
                    y as nat,
                )] by {
            lemma_cell_in_grid(w as nat, h as nat, x as nat, y as nat);
            assert(0 <= cell_index(w as nat, x as nat, y as nat) < n);
        }
    }

    /// All the cells, row by row.
    pub fn data(&self) -> (r: &[T])
        ensures
            r@ == self.cells(),
    {
        self.values.as_slice()
    }

    /// All the cells, row by row, for writing.
    pub fn data_mut(&mut self) -> (r: &mut [T])
        ensures
            r@ == old(self).cells(),
            final(self).cells() == final(r)@,
            final(self).spec_width() == old(self).spec_width(),
            final(self).spec_height() == old(self).spec_height(),
    {
        self.values.as_mut_slice()
    }
}

/// A read-only grid view over borrowed cells.
#[derive(Clone, Copy, Debug)]
pub struct Slice2d<'a, T> {
    values: &'a [T],
    width: usize,
    height: usize,
}

impl<'a, T> Slice2d<'a, T> {
    /// The cells as they are now, row by row.
    pub closed spec fn cells(&self) -> Seq<T> {
        self.values@
    }

    /// The number of columns.
    pub closed spec fn spec_width(&self) -> usize {
        self.width
    }

    /// The number of rows.
    pub closed spec fn spec_height(&self) -> usize {
        self.height
    }

    /// The grid holds exactly `width * height` cells.
    pub open spec fn wf(&self) -> bool {
        self.cells().len() == self.spec_width() * self.spec_height()
    }

    /// Views `values` as a grid of `height` rows of `width` cells.
    pub fn new(values: &'a [T], width: usize, height: usize) -> (r: Self)
        requires
            values@.len() == width * height,
        ensures
            r.wf(),
            r.cells() == values@,
            r.spec_width() == width,
            r.spec_height() == height,
    {
        Slice2d { values, width, height }
    }

    /// The row `idx`.
    pub fn get(&self, idx: usize) -> (r: &[T])
        requires
            idx < usize::MAX,
            self.spec_width() * (idx + 1) <= self.cells().len(),
        ensures
            r@ == row_of(self.cells(), self.spec_width() as nat, idx as nat),
    {
        let _n = self.values.len();
        proof {
            lemma_row_bounds(self.width as nat, idx as nat);
        }
        let start = self.width * idx;
        let end = self.width * (idx + 1);
        &self.values[start..end]
    }

    /// The cell at column `x` of row `y`.
    pub fn get_at(&self, x: usize, y: usize) -> (r: &T)
        requires
            cell_index(self.spec_width() as nat, x as nat, y as nat) < self.cells().len(),
        ensures
            *r == self.cells()[cell_index(self.spec_width() as nat, x as nat, y as nat)],
    {
        let _n = self.values.len();
        &self.values[y * self.width + x]
    }

    /// The number of columns.
    pub fn width(&self) -> (r: usize)
        ensures
            r == self.spec_width(),
    {
        self.width
    }

    /// The number of rows.
    pub fn height(&self) -> (r: usize)
        ensures
            r == self.spec_height(),
    {
        self.height
    }

    /// A read-only view of the same cells.
    pub fn as_slice(&self) -> (r: Slice2d<'a, T>)
        ensures
            r == *self,
    {
        Slice2d { values: self.values, width: self.width, height: self.height }
    }

    /// Calls `func` on every cell, row by row, with the cell's column and row, and collects
    /// the results in a grid of the same shape.
    pub fn kernel<U, FN: FnMut(&T, usize, usize) -> U>(&self, func: FN) -> (r: Array2d<U>)
        requires
            self.wf(),
            forall|x: usize, y: usize|
                x < self.spec_width() && y < self.spec_height() ==> #[trigger] call_requires(
                    func,
                    (&self.cells()[cell_index(self.spec_width() as nat, x as nat, y as nat)], x, y),
                ),
        ensures
            r.wf(),
            r.spec_width() == self.spec_width(),
            r.spec_height() == self.spec_height(),
            forall|x: usize, y: usize|
                x < self.spec_width() && y < self.spec_height() ==> #[trigger] call_ensures(
                    func,
                    (&self.cells()[cell_index(self.spec_width() as nat, x as nat, y as nat)], x, y),
                    r.cells()[cell_index(self.spec_width() as nat, x as nat, y as nat)],
                ),
    {
        kernel_cells(self.values, self.width, self.height, func)
    }

    /// All the cells, row by row.
    pub fn data(&self) -> (r: &[T])
        ensures
            r@ == self.cells(),
    {
        self.values
    }
}

/// A grid that shares its cells between clones.
#[derive(Debug)]
pub struct SharedArray2d<T> {
    values: Arc<Vec<T>>,
    width: usize,
    height: usize,
}

impl<T> SharedArray2d<T> {
    /// The cells as they are now, row by row.
    pub closed spec fn cells(&self) -> Seq<T> {
        self.values@
    }

    /// The number of columns.
    pub closed spec fn spec_width(&self) -> usize {
        self.width
    }

    /// The number of rows.
    pub closed spec fn spec_height(&self) -> usize {
        self.height
    }

    /// The grid holds exactly `width * height` cells.
    pub open spec fn wf(&self) -> bool {
        self.cells().len() == self.spec_width() * self.spec_height()
    }

    /// Builds a grid from an array of rows.
    pub fn from_array<const WIDTH: usize, const HEIGHT: usize>(values: [[T; WIDTH]; HEIGHT]) -> (r:
        Self)
        ensures
            r.wf(),
            r.cells() == flatten_rows(values@),
            r.spec_width() == WIDTH,
            r.spec_height() == HEIGHT,
    {
        let flat = flatten_array(values);
        SharedArray2d { values: Arc::new(flat), width: WIDTH, height: HEIGHT }
    }

    /// Builds a grid from its cells, row by row.
    pub fn from_vec(v: Vec<T>, width: usize, height: usize) -> (r: Self)
        requires
            v@.len() == width * height,
        ensures
            r.wf(),
            r.cells() == v@,
            r.spec_width() == width,
            r.spec_height() == height,
    {
        SharedArray2d { values: Arc::new(v), width, height }
    }

    /// Builds a grid from its cells, row by row.
    pub fn new(x: Vec<T>, width: usize, height: usize) -> (r: Self)
        requires
            x@.len() == width * height,
        ensures
            r.wf(),
            r.cells() == x@,
            r.spec_width() == width,
            r.spec_height() == height,
    {
        SharedArray2d { values: Arc::new(x), width, height }
    }

    /// The row `idx`.
    pub fn get(&self, idx: usize) -> (r: &[T])
        requires
            idx < usize::MAX,
            self.spec_width() * (idx + 1) <= self.cells().len(),
        ensures
            r@ == row_of(self.cells(), self.spec_width() as nat, idx as nat),
    {
        let v: &Vec<T> = &*self.values;
        let _n = v.len();
        proof {
            lemma_row_bounds(self.width as nat, idx as nat);
        }
        let start = self.width * idx;
        let end = self.width * (idx + 1);
        &v.as_slice()[start..end]
    }

    /// The cell at column `x` of row `y`.
    pub fn get_at(&self, x: usize, y: usize) -> (r: &T)
        requires
            cell_index(self.spec_width() as nat, x as nat, y as nat) < self.cells().len(),
        ensures
            *r == self.cells()[cell_index(self.spec_width() as nat, x as nat, y as nat)],
    {
        let v: &Vec<T> = &*self.values;
        let _n = v.len();
        &v[y * self.width + x]
    }

    /// The number of columns.
    pub fn width(&self) -> (r: usize)
        ensures
            r == self.spec_width(),
    {
        self.width
    }

    /// The number of rows.
    pub fn height(&self) -> (r: usize)
        ensures
            r == self.spec_height(),
    {
        self.height
    }

    /// A read-only view of the same cells.
    pub fn as_slice<'a>(&'a self) -> (r: Slice2d<'a, T>)
        ensures
            r.cells() == self.cells(),
            r.spec_width() == self.spec_width(),
            r.spec_height() == self.spec_height(),
    {
        let v: &Vec<T> = &*self.values;
        Slice2d { values: v.as_slice(), width: self.width, height: self.height }
    }

    /// Calls `func` on every cell, row by row, with the cell's column and row, and collects
    /// the results in a grid of the same shape.
    pub fn kernel<U, FN: FnMut(&T, usize, usize) -> U>(&self, func: FN) -> (r: Array2d<U>)
        requires
            self.wf(),
            forall|x: usize, y: usize|
                x < self.spec_width() && y < self.spec_height() ==> #[trigger] call_requires(
                    func,
                    (&self.cells()[cell_index(self.spec_width() as nat, x as nat, y as nat)], x, y),
                ),
        ensures
            r.wf(),
            r.spec_width() == self.spec_width(),
            r.spec_height() == self.spec_height(),
            forall|x: usize, y: usize|
                x < self.spec_width() && y < self.spec_height() ==> #[trigger] call_ensures(
                    func,
                    (&self.cells()[cell_index(self.spec_width() as nat, x as nat, y as nat)], x, y),
                    r.cells()[cell_index(self.spec_width() as nat, x as nat, y as nat)],
                ),
    {
        let v: &Vec<T> = &*self.values;
        kernel_cells(v.as_slice(), self.width, self.height, func)
    }

    /// All the cells, row by row.
    pub fn data(&self) -> (r: &[T])
        ensures
            r@ == self.cells(),
    {
        let v: &Vec<T> = &*self.values;
        v.as_slice()
    }
}

impl<T> Clone for SharedArray2d<T> {
    fn clone(&self) -> (r: Self)
        ensures
            r.cells() == self.cells(),
            r.spec_width() == self.spec_width(),
            r.spec_height() == self.spec_height(),
    {
        SharedArray2d { values: Arc::clone(&self.values), width: self.width, height: self.height }
    }
}

/// A writable grid view over borrowed cells. Its cells are the borrowed cells themselves, and
/// the contracts of `SliceMut2d::new` and of the `as_slice_mut` methods tie the borrow's final
/// cells to the cells borrowed from, so what is written through the view is what those cells
/// hold once the view is done with.
#[derive(Debug)]
pub struct SliceMut2d<'a, T> {
    pub values: &'a mut [T],
    pub width: usize,
    pub height: usize,
}

impl<'a, T> SliceMut2d<'a, T> {
    /// The cells as they are now, row by row.
    pub open spec fn cells(&self) -> Seq<T> {
        (*self.values)@
    }

    /// The number of columns.
    pub open spec fn spec_width(&self) -> usize {
        self.width
    }

    /// The number of rows.
    pub open spec fn spec_height(&self) -> usize {
        self.height
    }

    /// The grid holds exactly `width * height` cells.
    pub open spec fn wf(&self) -> bool {
        self.cells().len() == self.spec_width() * self.spec_height()
    }

    /// Views `values` as a grid of `height` rows of `width` cells, for writing; what is
    /// written through the view is what `values` holds once the view is done with.
    pub fn new(values: &'a mut [T], width: usize, height: usize) -> (r: Self)
        requires
            old(values)@.len() == width * height,
        ensures
            r.wf(),
            r.cells() == old(values)@,
            final(r.values)@ == final(values)@,
            r.spec_width() == width,
            r.spec_height() == height,
    {
        SliceMut2d { values, width, height }
    }

    /// The row `idx`.
    pub fn get(&self, idx: usize) -> (r: &[T])
        requires
            idx < usize::MAX,
            self.spec_width() * (idx + 1) <= self.cells().len(),
        ensures
            r@ == row_of(self.cells(), self.spec_width() as nat, idx as nat),
    {
        let v: &[T] = &*self.values;
        let _n = v.len();
        proof {
            lemma_row_bounds(self.width as nat, idx as nat);
        }
        let start = self.width * idx;
        let end = self.width * (idx + 1);
        &v[start..end]
    }

    /// The cell at column `x` of row `y`.
    pub fn get_at(&self, x: usize, y: usize) -> (r: &T)
        requires
            cell_index(self.spec_width() as nat, x as nat, y as nat) < self.cells().len(),
        ensures
            *r == self.cells()[cell_index(self.spec_width() as nat, x as nat, y as nat)],
    {
        let v: &[T] = &*self.values;
        let _n = v.len();
        &v[y * self.width + x]
    }

    /// The row `idx`, for writing.
    pub fn get_mut(&mut self, idx: usize) -> (r: &mut [T])
        requires
            idx < usize::MAX,
            old(self).spec_width() * (idx + 1) <= old(self).cells().len(),
        ensures
            r@ == row_of(old(self).cells(), old(self).spec_width() as nat, idx as nat),
            final(self).cells() == old(self).cells().subrange(0, old(self).spec_width() * idx)
                + final(r)@ + old(self).cells().subrange(
                old(self).spec_width() * (idx + 1),
                old(self).cells().len() as int,
            ),
            final(final(self).values)@ == final(old(self).values)@,
            final(self).spec_width() == old(self).spec_width(),
            final(self).spec_height() == old(self).spec_height(),
    {
        let _n = self.values.len();
        proof {
            lemma_row_bounds(self.width as nat, idx as nat);
        }
        let start = self.width * idx;
        let w = self.width;
        let (_, rest) = self.values.split_at_mut(start);
        let (row, _) = rest.split_at_mut(w);
        row
    }

    /// The cell at column `x` of row `y`, for writing.
    pub fn get_at_mut(&mut self, x: usize, y: usize) -> (r: &mut T)
        requires
            cell_index(old(self).spec_width() as nat, x as nat, y as nat) < old(self).cells().len(),
        ensures
            *r == old(self).cells()[cell_index(old(self).spec_width() as nat, x as nat, y as nat)],
            final(self).cells() == old(self).cells().update(
                cell_index(old(self).spec_width() as nat, x as nat, y as nat),
                *final(r),
            ),
            final(final(self).values)@ == final(old(self).values)@,
            final(self).spec_width() == old(self).spec_width(),
            final(self).spec_height() == old(self).spec_height(),
    {
        let _n = self.values.len();
        let i = y * self.width + x;
        &mut self.values[i]
    }

    /// The number of columns.
    pub fn width(&self) -> (r: usize)
        ensures
            r == self.spec_width(),
    {
        self.width
    }

    /// The number of rows.
    pub fn height(&self) -> (r: usize)
        ensures
            r == self.spec_height(),
    {
        self.height
    }

    /// A read-only view of the same cells.
    pub fn as_slice<'b>(&'b self) -> (r: Slice2d<'b, T>)
        ensures
            r.cells() == self.cells(),
            r.spec_width() == self.spec_width(),
            r.spec_height() == self.spec_height(),
    {
        let v: &[T] = &*self.values;
        Slice2d { values: v, width: self.width, height: self.height }
    }

    /// A writable view of the same cells; what is written through it is what this grid holds
    /// once the view is done with.
    pub fn as_slice_mut<'b>(&'b mut self) -> (r: SliceMut2d<'b, T>)
        ensures
            r.cells() == old(self).cells(),
            r.spec_width() == old(self).spec_width(),
            r.spec_height() == old(self).spec_height(),
            final(self).cells() == final(r.values)@,
            final(final(self).values)@ == final(old(self).values)@,
            final(self).spec_width() == old(self).spec_width(),
            final(self).spec_height() == old(self).spec_height(),
    {
        let w = self.width;
        let h = self.height;
        SliceMut2d { values: &mut *self.values, width: w, height: h }
    }

    /// Calls `func` on every cell, row by row, with the cell's column and row, and collects
    /// the results in a grid of the same shape.
    pub fn kernel<U, FN: FnMut(&T, usize, usize) -> U>(&self, func: FN) -> (r: Array2d<U>)
        requires
            self.wf(),
            forall|x: usize, y: usize|
                x < self.spec_width() && y < self.spec_height() ==> #[trigger] call_requires(
                    func,
                    (&self.cells()[cell_index(self.spec_width() as nat, x as nat, y as nat)], x, y),
                ),
        ensures
            r.wf(),
            r.spec_width() == self.spec_width(),
            r.spec_height() == self.spec_height(),
            forall|x: usize, y: usize|
                x < self.spec_width() && y < self.spec_height() ==> #[trigger] call_ensures(
                    func,
                    (&self.cells()[cell_index(self.spec_width() as nat, x as nat, y as nat)], x, y),
                    r.cells()[cell_index(self.spec_width() as nat, x as nat, y as nat)],
                ),
    {
        let v: &[T] = &*self.values;
        kernel_cells(v, self.width, self.height, func)
    }

    /// Calls `func` on every cell, row by row, with the cell's column and row, letting it
    /// change the cell, and collects the results in a grid of the same shape.
    pub fn kernel_mut<U, FN: FnMut(&mut T, usize, usize) -> U>(&mut self, func: FN) -> (r: Array2d<U>)
        requires
            old(self).wf(),
            forall|c: &mut T, x: usize, y: usize|
                x < old(self).spec_width() && y < old(self).spec_height() ==> #[trigger] call_requires(func, (c, x, y)),
        ensures
            r.wf(),
            r.spec_width() == old(self).spec_width(),
            r.spec_height() == old(self).spec_height(),
            final(self).wf(),
            final(final(self).values)@ == final(old(self).values)@,
            final(self).spec_width() == old(self).spec_width(),
            final(self).spec_height() == old(self).spec_height(),
            forall|x: usize, y: usize|
                #[trigger] in_grid(
                    old(self).spec_width() as nat,
                    old(self).spec_height() as nat,
                    x as nat,
                    y as nat,
                ) ==> exists|c: &mut T|
                    #[trigger] call_ensures(
                        func,
                        (c, x, y),
                        r.cells()[cell_index(old(self).spec_width() as nat, x as nat, y as nat)],
                    ) && *c == old(self).cells()[cell_index(
                        old(self).spec_width() as nat,
                        x as nat,
                        y as nat,
                    )] && *final(c) == final(self).cells()[cell_index(
                        old(self).spec_width() as nat,
                        x as nat,
                        y as nat,
                    )],
    {
        let w = self.width;
        let h = self.height;
        let n = self.values.len();
        let r = kernel_cells_mut(&mut *self.values, w, h, func);
        assert forall|x: usize, y: usize|
            #[trigger] in_grid(
                old(self).spec_width() as nat,
                old(self).spec_height() as nat,
                x as nat,
                y as nat,
            ) implies exists|c: &mut T|
                #[trigger] call_ensures(
                    func,
                    (c, x, y),
                    r.cells()[cell_index(old(self).spec_width() as nat, x as nat, y as nat)],
                ) && *c == old(self).cells()[cell_index(
                    old(self).spec_width() as nat,
                    x as nat,
                    y as nat,
                )] && *final(c) == final(self).cells()[cell_index(
                    old(self).spec_width() as nat,
                    x as nat,
                    y as nat,
                )] by {
            lemma_cell_in_grid(w as nat, h as nat, x as nat, y as nat);
            assert(0 <= cell_index(w as nat, x as nat, y as nat) < n);
        }
        r
    }

    /// Calls `func` on every cell, row by row, with the cell's column and row, letting it
    /// change the cell.
    pub fn kernel_on<FN: FnMut(&mut T, usize, usize)>(&mut self, func: FN)
        requires
            old(self).wf(),
            forall|c: &mut T, x: usize, y: usize|
                x < old(self).spec_width() && y < old(self).spec_height() ==> #[trigger] call_requires(func, (c, x, y)),
        ensures
            final(self).wf(),
            final(final(self).values)@ == final(old(self).values)@,
            final(self).spec_width() == old(self).spec_width(),
            final(self).spec_height() == old(self).spec_height(),
            forall|x: usize, y: usize|
                #[trigger] in_grid(
                    old(self).spec_width() as nat,
                    old(self).spec_height() as nat,
                    x as nat,
                    y as nat,
                ) ==> exists|c: &mut T|
                    #[trigger] call_ensures(func, (c, x, y), ()) && *c == old(self).cells()[cell_index(
                        old(self).spec_width() as nat,
                        x as nat,
                        y as nat,
                    )] && *final(c) == final(self).cells()[cell_index(
                        old(self).spec_width() as nat,
                        x as nat,
                        y as nat,
                    )],
    {
        let w = self.width;
        let h = self.height;
        let n = self.values.len();
        let _ = kernel_range_on(&mut *self.values, w, h, 0, n, func);
        assert forall|x: usize, y: usize|
            #[trigger] in_grid(
                old(self).spec_width() as nat,
                old(self).spec_height() as nat,
                x as nat,
                y as nat,
            ) implies exists|c: &mut T|
                #[trigger] call_ensures(func, (c, x, y), ()) && *c == old(self).cells()[cell_index(
                    old(self).spec_width() as nat,
                    x as nat,
                    y as nat,
                )] && *final(c) == final(self).cells()[cell_index(
                    old(self).spec_width() as nat,
                    x as nat,
                    y as nat,
                )] by {
            lemma_cell_in_grid(w as nat, h as nat, x as nat, y as nat);
            assert(0 <= cell_index(w as nat, x as nat, y as nat) < n);
        }
    }

    /// All the cells, row by row.
    pub fn data(&self) -> (r: &[T])
        ensures
            r@ == self.cells(),
    {
        &*self.values
    }

    /// All the cells, row by row, for writing.
    pub fn data_mut(&mut self) -> (r: &mut [T])
        ensures
            r@ == old(self).cells(),
            final(self).cells() == final(r)@,
            final(final(self).values)@ == final(old(self).values)@,
            final(self).spec_width() == old(self).spec_width(),
            final(self).spec_height() == old(self).spec_height(),
    {
        &mut *self.values
    }
}

} // verus!
