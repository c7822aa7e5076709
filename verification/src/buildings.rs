use std::collections::HashMap;
use vstd::prelude::*;

verus! {

/// A grid of region labels; label 0 marks cells that belong to no region.
pub struct Voronoi {
    /// The label that the next call of `alloc_point` hands out.
    pub next_idx: u32,
    pub height: i32,
    pub width: i32,
    /// The labels, row by row.
    pub data: Vec<u32>,
    pub point_set: Vec<(i32, i32)>,
}

/// True when (x, y) lies on a grid of the given size.
pub open spec fn in_grid(width: int, height: int, x: int, y: int) -> bool {
    0 <= x < width && 0 <= y < height
}

impl Voronoi {
    /// The grid is `width * height` cells, and its cell count fits an `i32`.
    pub open spec fn wf(&self) -> bool {
        &&& self.width >= 0
        &&& self.height >= 0
        &&& self.width * self.height <= i32::MAX
        &&& self.data@.len() == self.width * self.height
    }

    /// The label at (x, y): 0 off the grid.
    pub open spec fn cell(&self, x: int, y: int) -> u32 {
        if in_grid(self.width as int, self.height as int, x, y) {
            self.data@[y * self.width + x]
        } else {
            0
        }
    }

    /// The label at (x, y), or 0 when (x, y) is off the grid.
    pub fn get(&self, x: i32, y: i32) -> (r: u32)
        requires
            self.data@.len() == self.width * self.height,
            self.width * self.height <= i32::MAX,
        ensures
            r == self.cell(x as int, y as int),
    {
        if x >= self.width || y >= self.height || x < 0 || y < 0 {
            return 0;
        }
        proof {
            lemma_index_in_grid(self.width as int, self.height as int, x as int, y as int);
        }
        self.data[(self.width * y + x) as usize]
    }

    /// Sets the label at (x, y) to `v`; does nothing when (x, y) is off the grid.
    pub fn set(&mut self, x: i32, y: i32, v: u32)
        requires
            old(self).data@.len() == old(self).width * old(self).height,
            old(self).width * old(self).height <= i32::MAX,
        ensures
            old(self).wf() ==> final(self).wf(),
            final(self).data@.len() == old(self).data@.len(),
            final(self).width == old(self).width,
            final(self).height == old(self).height,
            final(self).next_idx == old(self).next_idx,
            final(self).point_set == old(self).point_set,
            in_grid(old(self).width as int, old(self).height as int, x as int, y as int)
                ==> final(self).data@ == old(self).data@.update(
                y * old(self).width + x,
                v,
            ),
            !in_grid(old(self).width as int, old(self).height as int, x as int, y as int)
                ==> final(self).data@ == old(self).data@,
            in_grid(old(self).width as int, old(self).height as int, x as int, y as int) ==> final(self).cell(
                x as int,
                y as int,
            ) == v,
            forall|cx: int, cy: int|
                !(cx == x && cy == y) ==> #[trigger] final(self).cell(cx, cy) == old(self).cell(cx, cy),
    {
        if x >= self.width || y >= self.height || x < 0 || y < 0 {
            return;
        }
        proof {
            lemma_index_in_grid(self.width as int, self.height as int, x as int, y as int);
        }
        let ghost before = *self;
        let i = (self.width * y + x) as usize;
        self.data.set(i, v);
        proof {
            assert forall|cx: int, cy: int| !(cx == x && cy == y) implies #[trigger] self.cell(cx, cy) == before.cell(cx, cy) by {
                if in_grid(before.width as int, before.height as int, cx, cy) {
                    lemma_index_in_grid(before.width as int, before.height as int, cx, cy);
                    lemma_distinct_cells(before.width as int, before.height as int, cx, cy, x as int, y as int);
                }
            }
        }
    }

    /// Hands out a fresh label: each call returns the next one.
    pub fn alloc_point(&mut self) -> (r: u32)
        requires
            old(self).next_idx < u32::MAX,
        ensures
            r == old(self).next_idx,
            final(self).next_idx == old(self).next_idx + 1,
            final(self).data == old(self).data,
            final(self).width == old(self).width,
            final(self).height == old(self).height,
            final(self).point_set == old(self).point_set,
    {
        let tmp = self.next_idx;
        self.next_idx = tmp + 1;
        tmp
    }
}

pub(crate) proof fn lemma_index_in_grid(width: int, height: int, x: int, y: int)
    requires
        0 <= x < width,
        0 <= y < height,
    ensures
        0 <= width * y + x < width * height,
        width * y + x == y * width + x,
{
    assert(width * y + x < width * height) by (nonlinear_arith)
        requires
            0 <= x < width,
            0 <= y < height,
    ;
    assert(0 <= width * y) by (nonlinear_arith)
        requires
            0 <= x < width,
            0 <= y,
    ;
    assert(width * y == y * width) by (nonlinear_arith);
}

/// A grid of `width * height` cells, all labelled 0, whose first fresh label is 1.
pub fn new_voronoi(width: i32, height: i32) -> (r: Voronoi)
    requires
        width >= 0,
        height >= 0,
        width * height <= i32::MAX,
    ensures
        r.wf(),
        r.width == width,
        r.height == height,
        r.next_idx == 1,
        r.point_set@ == Seq::<(i32, i32)>::empty(),
        forall|i: int| 0 <= i < r.data@.len() ==> r.data@[i] == 0,
{
    let n = (width * height) as usize;
    let mut data: Vec<u32> = Vec::with_capacity(n);
    let mut i: usize = 0;
    while i < n
        invariant
            i <= n,
            data@.len() == i,
            forall|j: int| 0 <= j < i ==> data@[j] == 0,
        decreases n - i,
    {
        data.push(0);
        i = i + 1;
    }
    Voronoi { next_idx: 1, height, width, data, point_set: Vec::new() }
}

/// True when a cell within `r` steps of (x, y) along both axes, other than (x, y) itself,
/// holds a label other than 0 and other than `base`.
pub open spec fn touches_other_region(v: &Voronoi, x: int, y: int, base: u32, r: int) -> bool {
    exists|dx: int, dy: int|
        -r <= dx <= r && -r <= dy <= r && !(dx == 0 && dy == 0) && #[trigger] v.cell(x + dx, y + dy)
            != 0 && v.cell(x + dx, y + dy) != base
}

/// True when the cell at (x, y) is labelled `base` and borders another region within `r`.
pub open spec fn is_border_cell(v: &Voronoi, x: int, y: int, base: u32, r: int) -> bool {
    v.cell(x, y) == base && touches_other_region(v, x, y, base, r)
}

/// Neighbour offsets of `r` keep every coordinate of the grid inside `i32`.
pub open spec fn offsets_fit(v: &Voronoi, r: int) -> bool {
    r > i32::MIN && (r <= 0 || (r + v.width <= i32::MAX && r + v.height <= i32::MAX))
}

fn touches_other(v: &Voronoi, x: i32, y: i32, base: u32, road_size: i32) -> (res: bool)
    requires
        v.wf(),
        0 <= x < v.width,
        0 <= y < v.height,
        offsets_fit(v, road_size as int),
    ensures
        res == touches_other_region(v, x as int, y as int, base, road_size as int),
{
    let r = road_size as i64;
    let mut borders = false;
    let mut dy: i64 = -r;
    while dy <= r
        invariant
            v.wf(),
            0 <= x < v.width,
            0 <= y < v.height,
            offsets_fit(v, road_size as int),
            r == road_size,
            -r <= dy,
            r >= 0 ==> dy <= r + 1,
            borders <==> exists|dx: int, dy2: int|
                -r <= dx <= r && -r <= dy2 < dy && !(dx == 0 && dy2 == 0) && #[trigger] v.cell(
                    x + dx,
                    y + dy2,
                ) != 0 && v.cell(x + dx, y + dy2) != base,
        decreases r + 1 - dy,
    {
        let mut dx: i64 = -r;
        while dx <= r
            invariant
                v.wf(),
                0 <= x < v.width,
                0 <= y < v.height,
                offsets_fit(v, road_size as int),
                r == road_size,
                -r <= dy <= r,
                -r <= dx <= r + 1,
                borders <==> (exists|dx2: int, dy2: int|
                    -r <= dx2 <= r && -r <= dy2 < dy && !(dx2 == 0 && dy2 == 0)
                        && #[trigger] v.cell(x + dx2, y + dy2) != 0 && v.cell(x + dx2, y + dy2)
                        != base) || (exists|dx2: int|
                    -r <= dx2 < dx && !(dx2 == 0 && dy == 0) && #[trigger] v.cell(x + dx2, y + dy)
                        != 0 && v.cell(x + dx2, y + dy) != base),
            decreases r + 1 - dx,
        {
            if !(dx == 0 && dy == 0) {
                let nx = (x as i64 + dx) as i32;
                let ny = (y as i64 + dy) as i32;
                let c = v.get(nx, ny);
                if c != 0 && c != base {
                    borders = true;
                }
            }
            dx = dx + 1;
        }
        dy = dy + 1;
    }
    borders
}

/// Clears (sets to 0) every cell labelled `base` that has a cell of another nonzero label
/// within `road_size` steps along both axes, judged on the grid as it was before the call.
pub fn expand_borders_for(voronoi: &mut Voronoi, base: u32, road_size: i32)
    requires
        old(voronoi).wf(),
        offsets_fit(old(voronoi), road_size as int),
    ensures
        final(voronoi).wf(),
        final(voronoi).width == old(voronoi).width,
        final(voronoi).height == old(voronoi).height,
        final(voronoi).next_idx == old(voronoi).next_idx,
        final(voronoi).point_set == old(voronoi).point_set,
        forall|x: int, y: int|
            in_grid(old(voronoi).width as int, old(voronoi).height as int, x, y)
                ==> #[trigger] final(voronoi).cell(x, y) == if is_border_cell(
                old(voronoi),
                x,
                y,
                base,
                road_size as int,
            ) {
                0
            } else {
                old(voronoi).cell(x, y)
            },
{
    let ghost before = *voronoi;
    let mut to_set: Vec<(i32, i32)> = Vec::new();
    let mut y: i32 = 0;
    while y < voronoi.height
        invariant
            *voronoi == before,
            before.wf(),
            offsets_fit(&before, road_size as int),
            0 <= y <= before.height,
            forall|k: int|
                0 <= k < to_set@.len() ==> {
                    let (px, py) = #[trigger] to_set@[k];
                    &&& in_grid(before.width as int, before.height as int, px as int, py as int)
                    &&& is_border_cell(&before, px as int, py as int, base, road_size as int)
                },
            forall|px: int, py: int|
                0 <= px < before.width && 0 <= py < y && is_border_cell(
                    &before,
                    px,
                    py,
                    base,
                    road_size as int,
                ) ==> #[trigger] to_set@.contains((px as i32, py as i32)),
        decreases before.height - y,
    {
        let mut x: i32 = 0;
        while x < voronoi.width
            invariant
                *voronoi == before,
                before.wf(),
                offsets_fit(&before, road_size as int),
                0 <= y < before.height,
                0 <= x <= before.width,
                forall|k: int|
                    0 <= k < to_set@.len() ==> {
                        let (px, py) = #[trigger] to_set@[k];
                        &&& in_grid(before.width as int, before.height as int, px as int, py as int)
                        &&& is_border_cell(&before, px as int, py as int, base, road_size as int)
                    },
                forall|px: int, py: int|
                    0 <= px < before.width && 0 <= py < y && is_border_cell(
                        &before,
                        px,
                        py,
                        base,
                        road_size as int,
                    ) ==> #[trigger] to_set@.contains((px as i32, py as i32)),
                forall|px: int|
                    0 <= px < x && is_border_cell(&before, px, y as int, base, road_size as int)
                        ==> #[trigger] to_set@.contains((px as i32, y)),
            decreases before.width - x,
        {
            if voronoi.get(x, y) == base {
                if touches_other(voronoi, x, y, base, road_size) {
                    let ghost prev = to_set@;
                    to_set.push((x, y));
                    proof {
                        assert(to_set@[to_set@.len() - 1] == (x, y));
                        assert forall|px: int, py: int|
                            0 <= px < before.width && 0 <= py < y && is_border_cell(
                                &before,
                                px,
                                py,
                                base,
                                road_size as int,
                            ) implies #[trigger] to_set@.contains((px as i32, py as i32)) by {
                            assert(prev.contains((px as i32, py as i32)));
                            let j = choose|j: int| 0 <= j < prev.len() && prev[j] == (px as i32, py as i32);
                            assert(to_set@[j] == prev[j]);
                        }
                        assert forall|px: int|
                            0 <= px < x + 1 && is_border_cell(&before, px, y as int, base, road_size as int)
                                implies #[trigger] to_set@.contains((px as i32, y)) by {
                            if px < x {
                                assert(prev.contains((px as i32, y)));
                                let j = choose|j: int| 0 <= j < prev.len() && prev[j] == (px as i32, y);
                                assert(to_set@[j] == prev[j]);
                            } else {
                                assert(to_set@[to_set@.len() - 1] == (px as i32, y));
                            }
                        }
                    }
                }
            }
            x = x + 1;
        }
        y = y + 1;
    }
    let mut k: usize = 0;
    while k < to_set.len()
        invariant
            before.wf(),
            voronoi.wf(),
            voronoi.width == before.width,
            voronoi.height == before.height,
            voronoi.next_idx == before.next_idx,
            voronoi.point_set == before.point_set,
            k <= to_set@.len(),
            forall|j: int|
                0 <= j < to_set@.len() ==> {
                    let (px, py) = #[trigger] to_set@[j];
                    &&& in_grid(before.width as int, before.height as int, px as int, py as int)
                    &&& is_border_cell(&before, px as int, py as int, base, road_size as int)
                },
            forall|px: int, py: int|
                0 <= px < before.width && 0 <= py < before.height && is_border_cell(
                    &before,
                    px,
                    py,
                    base,
                    road_size as int,
                ) ==> #[trigger] to_set@.contains((px as i32, py as i32)),
            forall|x: int, y: int|
                in_grid(before.width as int, before.height as int, x, y) ==> #[trigger] voronoi.cell(
                    x,
                    y,
                ) == if exists|j: int| 0 <= j < k && to_set@[j] == (x as i32, y as i32) {
                    0
                } else {
                    before.cell(x, y)
                },
        decreases to_set@.len() - k,
    {
        let (px, py) = to_set[k];
        let ghost prev = *voronoi;
        voronoi.set(px, py, 0);
        proof {
            assert forall|x: int, y: int|
                in_grid(before.width as int, before.height as int, x, y) implies #[trigger] voronoi.cell(
                    x,
                    y,
                ) == if exists|j: int| 0 <= j < k + 1 && to_set@[j] == (x as i32, y as i32) {
                    0
                } else {
                    before.cell(x, y)
                } by {
                lemma_index_in_grid(before.width as int, before.height as int, x, y);
                lemma_index_in_grid(before.width as int, before.height as int, px as int, py as int);
                if x == px && y == py {
                    assert(to_set@[k as int] == (x as i32, y as i32));
                } else {
                    lemma_distinct_cells(before.width as int, before.height as int, x, y, px as int, py as int);
                    assert(voronoi.cell(x, y) == prev.cell(x, y));
                    if exists|j: int| 0 <= j < k + 1 && to_set@[j] == (x as i32, y as i32) {
                        let j = choose|j: int| 0 <= j < k + 1 && to_set@[j] == (x as i32, y as i32);
                        assert(j != k);
                    }
                }
            }
        }
        k = k + 1;
    }
    proof {
        assert forall|x: int, y: int|
            in_grid(before.width as int, before.height as int, x, y) implies #[trigger] voronoi.cell(x, y)
                == if is_border_cell(&before, x, y, base, road_size as int) {
                0
            } else {
                before.cell(x, y)
            } by {
            if is_border_cell(&before, x, y, base, road_size as int) {
                assert(to_set@.contains((x as i32, y as i32)));
            } else {
                if exists|j: int| 0 <= j < to_set@.len() && to_set@[j] == (x as i32, y as i32) {
                    let j = choose|j: int| 0 <= j < to_set@.len() && to_set@[j] == (x as i32, y as i32);
                    assert(is_border_cell(&before, x, y, base, road_size as int));
                }
            }
        }
    }
}

proof fn lemma_distinct_cells(width: int, height: int, x: int, y: int, px: int, py: int)
    requires
        in_grid(width, height, x, y),
        in_grid(width, height, px, py),
        !(x == px && y == py),
    ensures
        y * width + x != py * width + px,
{
    if y == py {
    } else if y < py {
        assert(y * width + x < py * width + px) by (nonlinear_arith)
            requires
                y < py,
                0 <= x < width,
                0 <= px,
        ;
    } else {
        assert(py * width + px < y * width + x) by (nonlinear_arith)
            requires
                py < y,
                0 <= px < width,
                0 <= x,
        ;
    }
}

/// The integer square root: the largest `r` with `r * r <= n`.
pub open spec fn sqrt_floor(n: nat) -> nat
    decreases n,
{
    if n == 0 {
        0
    } else {
        let r = sqrt_floor((n - 1) as nat);
        if (r + 1) * (r + 1) <= n {
            r + 1
        } else {
            r
        }
    }
}

proof fn lemma_sqrt_floor(n: nat)
    ensures
        sqrt_floor(n) * sqrt_floor(n) <= n,
        n < (sqrt_floor(n) + 1) * (sqrt_floor(n) + 1),
    decreases n,
{
    if n > 0 {
        lemma_sqrt_floor((n - 1) as nat);
        let r = sqrt_floor((n - 1) as nat);
        let s = sqrt_floor(n);
        if (r + 1) * (r + 1) <= n {
            assert(s == r + 1);
            assert(n < (r + 2) * (r + 2)) by (nonlinear_arith)
                requires
                    n - 1 < (r + 1) * (r + 1),
            ;
            assert((s + 1) * (s + 1) == (r + 2) * (r + 2));
            assert(s * s <= n);
            assert(n < (s + 1) * (s + 1));
        } else {
            assert(s == r);
            assert(s * s <= n);
            assert(n < (s + 1) * (s + 1));
        }
        assert(n < (sqrt_floor(n) + 1) * (sqrt_floor(n) + 1));
    } else {
        assert(sqrt_floor(0) == 0);
        assert((0nat + 1) * (0nat + 1) == 1nat) by (nonlinear_arith);
    }
}

proof fn lemma_sqrt_unique(n: nat, r: nat)
    requires
        r * r <= n < (r + 1) * (r + 1),
    ensures
        r == sqrt_floor(n),
{
    lemma_sqrt_floor(n);
    let s = sqrt_floor(n);
    if r < s {
        assert((r + 1) * (r + 1) <= s * s) by (nonlinear_arith)
            requires
                r < s,
        ;
    } else if s < r {
        assert((s + 1) * (s + 1) <= r * r) by (nonlinear_arith)
            requires
                s < r,
        ;
    }
}

/// The integer square root of a non-negative `n`.
pub fn isqrt(n: i32) -> (r: i32)
    requires
        n >= 0,
    ensures
        r == sqrt_floor(n as nat),
        0 <= r <= 46340,
{
    let mut lo: i32 = 0;
    let mut hi: i32 = 46341;
    assert(46341 * 46341 > i32::MAX) by (nonlinear_arith);
    while hi - lo > 1
        invariant
            0 <= lo < hi <= 46341,
            lo * lo <= n,
            n < hi * hi,
        decreases hi - lo,
    {
        let mid = lo + (hi - lo) / 2;
        assert(mid * mid <= 46340 * 46340) by (nonlinear_arith)
            requires
                0 <= mid <= 46340,
        ;
        if mid * mid <= n {
            lo = mid;
        } else {
            hi = mid;
        }
    }
    proof {
        lemma_sqrt_unique(n as nat, lo as nat);
    }
    lo
}

/// The squared distance from (x, y) to point `p`.
pub open spec fn dist2(x: int, y: int, p: (i32, i32)) -> int {
    (x - p.0) * (x - p.0) + (y - p.1) * (y - p.1)
}

/// The rounded-down distance from (x, y) to point `p`.
pub open spec fn grid_dist(x: int, y: int, p: (i32, i32)) -> int {
    sqrt_floor(dist2(x, y, p) as nat) as int
}

/// Point `k` is nearest to (x, y) among the first `n` points, and no later one of these
/// is as near.
pub open spec fn last_nearest(points: Seq<((i32, i32), u32)>, n: int, x: int, y: int, k: int) -> bool {
    &&& 0 <= k < n
    &&& forall|j: int| 0 <= j < n ==> grid_dist(x, y, points[k].0) <= #[trigger] grid_dist(x, y, points[j].0)
    &&& forall|j: int| k < j < n ==> grid_dist(x, y, points[k].0) < #[trigger] grid_dist(x, y, points[j].0)
}

/// The cell (x, y) lies in the rectangle from (min_x, min_y) to (max_x, max_y), both included.
pub open spec fn in_box(min_x: int, min_y: int, max_x: int, max_y: int, x: int, y: int) -> bool {
    min_x <= x <= max_x && min_y <= y <= max_y
}

/// The label a cell gets from its nearest point: the label of the last point that is
/// nearest (0 when there are no points).
pub open spec fn labelled_nearest(points: Seq<((i32, i32), u32)>, x: int, y: int, label: u32) -> bool {
    if points.len() == 0 {
        label == 0
    } else {
        exists|k: int| last_nearest(points, points.len() as int, x, y, k) && label == points[k].1
    }
}

/// No distance from a cell of the rectangle to a point overflows an `i32`.
pub open spec fn distances_fit(points: Seq<((i32, i32), u32)>, min_x: int, min_y: int, max_x: int, max_y: int) -> bool {
    forall|k: int, x: int, y: int|
        0 <= k < points.len() && in_box(min_x, min_y, max_x, max_y, x, y) ==> #[trigger] dist2(x, y, points[k].0)
            <= i32::MAX
}

fn nearest_label(points: &[((i32, i32), u32)], x: i32, y: i32) -> (r: u32)
    requires
        forall|k: int| 0 <= k < points@.len() ==> #[trigger] dist2(x as int, y as int, points@[k].0) <= i32::MAX,
    ensures
        labelled_nearest(points@, x as int, y as int, r),
{
    let mut closest_dist: i32 = 1000000;
    let mut best_idx: u32 = 0;
    let ghost mut best_k: int = 0;
    let mut i: usize = 0;
    while i < points.len()
        invariant
            i <= points@.len(),
            forall|k: int| 0 <= k < points@.len() ==> #[trigger] dist2(x as int, y as int, points@[k].0) <= i32::MAX,
            i == 0 ==> best_idx == 0 && closest_dist == 1000000,
            i > 0 ==> last_nearest(points@, i as int, x as int, y as int, best_k) && best_idx
                == points@[best_k].1 && closest_dist == grid_dist(x as int, y as int, points@[best_k].0),
        decreases points@.len() - i,
    {
        let ((dx, dy), v) = points[i];
        assert(dist2(x as int, y as int, points@[i as int].0) <= i32::MAX);
        proof {
            lemma_diff_fits(x as int, dx as int, y as int, dy as int);
        }
        let ex = x - dx;
        let ey = y - dy;
        let sq = ex * ex + ey * ey;
        let delta = isqrt(sq);
        if delta <= closest_dist {
            best_idx = v;
            closest_dist = delta;
            proof {
                best_k = i as int;
            }
        }
        i = i + 1;
    }
    best_idx
}

proof fn lemma_diff_fits(x: int, px: int, y: int, py: int)
    requires
        (x - px) * (x - px) + (y - py) * (y - py) <= i32::MAX,
    ensures
        -46341 < x - px < 46341,
        -46341 < y - py < 46341,
        0 <= (x - px) * (x - px),
        0 <= (y - py) * (y - py),
{
    assert(0 <= (x - px) * (x - px)) by (nonlinear_arith);
    assert(0 <= (y - py) * (y - py)) by (nonlinear_arith);
    if x - px >= 46341 || x - px <= -46341 {
        assert((x - px) * (x - px) >= 46341 * 46341) by (nonlinear_arith)
            requires
                x - px >= 46341 || x - px <= -46341,
        ;
    }
    if y - py >= 46341 || y - py <= -46341 {
        assert((y - py) * (y - py) >= 46341 * 46341) by (nonlinear_arith)
            requires
                y - py >= 46341 || y - py <= -46341,
        ;
    }
}

/// `after` is `before` with every cell labelled `mask` inside the rectangle from (min_x, min_y)
/// to (max_x, max_y) relabelled with the label of its nearest point (the last of them when
/// several are equally near); the other cells keep their labels.
pub open spec fn nearest_relabelled(
    before: Voronoi,
    after: Voronoi,
    mask: u32,
    min_x: int,
    min_y: int,
    max_x: int,
    max_y: int,
    points: Seq<((i32, i32), u32)>,
) -> bool {
    forall|x: int, y: int|
        in_grid(before.width as int, before.height as int, x, y) ==> {
            if in_box(min_x, min_y, max_x, max_y, x, y) && before.cell(x, y) == mask {
                labelled_nearest(points, x, y, #[trigger] after.cell(x, y))
            } else {
                after.cell(x, y) == before.cell(x, y)
            }
        }
}

/// Relabels every cell labelled `mask` inside the rectangle from (min_x, min_y) to
/// (max_x, max_y) with the label of its nearest point; when several points are equally
/// near, the last of them wins. Other cells keep their labels.
pub fn assign_nearest(
    voronoi: &mut Voronoi,
    mask: u32,
    min_x: i32,
    min_y: i32,
    max_x: i32,
    max_y: i32,
    points: &[((i32, i32), u32)],
)
    requires
        old(voronoi).wf(),
        0 <= min_x,
        0 <= min_y,
        max_x < old(voronoi).width,
        max_y < old(voronoi).height,
        distances_fit(points@, min_x as int, min_y as int, max_x as int, max_y as int),
    ensures
        final(voronoi).wf(),
        final(voronoi).width == old(voronoi).width,
        final(voronoi).height == old(voronoi).height,
        final(voronoi).next_idx == old(voronoi).next_idx,
        final(voronoi).point_set == old(voronoi).point_set,
        nearest_relabelled(*old(voronoi), *final(voronoi), mask, min_x as int, min_y as int, max_x as int, max_y as int, points@),
{
    let ghost before = *voronoi;
    let mut y: i32 = min_y;
    while y <= max_y
        invariant
            before.wf(),
            voronoi.wf(),
            voronoi.width == before.width,
            voronoi.height == before.height,
            voronoi.next_idx == before.next_idx,
            voronoi.point_set == before.point_set,
            0 <= min_x,
            0 <= min_y,
            max_x < before.width,
            max_y < before.height,
            min_y <= y,
            y <= max_y + 1 || y == min_y,
            distances_fit(points@, min_x as int, min_y as int, max_x as int, max_y as int),
            forall|cx: int, cy: int|
                in_grid(before.width as int, before.height as int, cx, cy) ==> {
                    if in_box(min_x as int, min_y as int, max_x as int, max_y as int, cx, cy) && cy < y
                        && before.cell(cx, cy) == mask {
                        labelled_nearest(points@, cx, cy, #[trigger] voronoi.cell(cx, cy))
                    } else {
                        voronoi.cell(cx, cy) == before.cell(cx, cy)
                    }
                },
        decreases max_y + 1 - y,
    {
        let mut x: i32 = min_x;
        while x <= max_x
            invariant
                before.wf(),
                voronoi.wf(),
                voronoi.width == before.width,
                voronoi.height == before.height,
                voronoi.next_idx == before.next_idx,
                voronoi.point_set == before.point_set,
                0 <= min_x,
                0 <= min_y,
                max_x < before.width,
                max_y < before.height,
                min_y <= y <= max_y,
                min_x <= x,
                x <= max_x + 1 || x == min_x,
                distances_fit(points@, min_x as int, min_y as int, max_x as int, max_y as int),
                forall|cx: int, cy: int|
                    in_grid(before.width as int, before.height as int, cx, cy) ==> {
                        if in_box(min_x as int, min_y as int, max_x as int, max_y as int, cx, cy) && (cy < y
                            || (cy == y && cx < x)) && before.cell(cx, cy) == mask {
                            labelled_nearest(points@, cx, cy, #[trigger] voronoi.cell(cx, cy))
                        } else {
                            voronoi.cell(cx, cy) == before.cell(cx, cy)
                        }
                    },
            decreases max_x + 1 - x,
        {
            if voronoi.get(x, y) == mask {
                proof {
                    assert forall|k: int| 0 <= k < points@.len() implies #[trigger] dist2(
                        x as int,
                        y as int,
                        points@[k].0,
                    ) <= i32::MAX by {
                        assert(in_box(min_x as int, min_y as int, max_x as int, max_y as int, x as int, y as int));
                    }
                }
                let best = nearest_label(points, x, y);
                let ghost prev = *voronoi;
                voronoi.set(x, y, best);
                proof {
                    assert forall|cx: int, cy: int|
                        in_grid(before.width as int, before.height as int, cx, cy) implies {
                            if in_box(min_x as int, min_y as int, max_x as int, max_y as int, cx, cy) && (cy < y
                                || (cy == y && cx < x + 1)) && before.cell(cx, cy) == mask {
                                labelled_nearest(points@, cx, cy, #[trigger] voronoi.cell(cx, cy))
                            } else {
                                voronoi.cell(cx, cy) == before.cell(cx, cy)
                            }
                        } by {
                        lemma_index_in_grid(before.width as int, before.height as int, cx, cy);
                        lemma_index_in_grid(before.width as int, before.height as int, x as int, y as int);
                        if !(cx == x && cy == y) {
                            lemma_distinct_cells(before.width as int, before.height as int, cx, cy, x as int, y as int);
                            assert(voronoi.cell(cx, cy) == prev.cell(cx, cy));
                        }
                    }
                }
            }
            x = x + 1;
        }
        y = y + 1;
    }
}

/// `b` is the smallest rectangle, as (min_x, min_y, max_x, max_y), that holds every cell of
/// `v` labelled `mask`; (width, height, 0, 0) when no cell has that label.
pub open spec fn mask_box(v: Voronoi, mask: u32, b: (i32, i32, i32, i32)) -> bool {
    &&& ((forall|x: int, y: int|
            in_grid(v.width as int, v.height as int, x, y) ==> #[trigger] v.cell(x, y) != mask)
            ==> b == (v.width, v.height, 0i32, 0i32))
    &&& (forall|x: int, y: int|
            in_grid(v.width as int, v.height as int, x, y) && #[trigger] v.cell(x, y) == mask
                ==> in_box(b.0 as int, b.1 as int, b.2 as int, b.3 as int, x, y))
    &&& ((exists|x: int, y: int|
            in_grid(v.width as int, v.height as int, x, y) && #[trigger] v.cell(x, y) == mask)
            ==> {
            &&& exists|y: int| in_grid(v.width as int, v.height as int, b.0 as int, y) && #[trigger] v.cell(b.0 as int, y) == mask
            &&& exists|x: int| in_grid(v.width as int, v.height as int, x, b.1 as int) && #[trigger] v.cell(x, b.1 as int) == mask
            &&& exists|y: int| in_grid(v.width as int, v.height as int, b.2 as int, y) && #[trigger] v.cell(b.2 as int, y) == mask
            &&& exists|x: int| in_grid(v.width as int, v.height as int, x, b.3 as int) && #[trigger] v.cell(x, b.3 as int) == mask
        })
}

/// The smallest rectangle that holds every cell labelled `mask`, as
/// (min_x, min_y, max_x, max_y); (width, height, 0, 0) when no cell has that label.
pub fn mask_bounds(voronoi: &Voronoi, mask: u32) -> (r: (i32, i32, i32, i32))
    requires
        voronoi.wf(),
    ensures
        mask_box(*voronoi, mask, r),
{
    let mut min_x = voronoi.width;
    let mut min_y = voronoi.height;
    let mut max_x: i32 = 0;
    let mut max_y: i32 = 0;
    let ghost mut found = false;
    let mut y: i32 = 0;
    while y < voronoi.height
        invariant
            voronoi.wf(),
            0 <= y <= voronoi.height,
            found <==> exists|cx: int, cy: int|
                in_grid(voronoi.width as int, voronoi.height as int, cx, cy) && cy < y && #[trigger] voronoi.cell(cx, cy) == mask,
            !found ==> min_x == voronoi.width && min_y == voronoi.height && max_x == 0 && max_y == 0,
            forall|cx: int, cy: int|
                in_grid(voronoi.width as int, voronoi.height as int, cx, cy) && cy < y && #[trigger] voronoi.cell(cx, cy) == mask
                    ==> in_box(min_x as int, min_y as int, max_x as int, max_y as int, cx, cy),
            found ==> {
                &&& exists|cy: int| in_grid(voronoi.width as int, voronoi.height as int, min_x as int, cy) && cy < y && #[trigger] voronoi.cell(min_x as int, cy) == mask
                &&& exists|cx: int| in_grid(voronoi.width as int, voronoi.height as int, cx, min_y as int) && min_y < y && #[trigger] voronoi.cell(cx, min_y as int) == mask
                &&& exists|cy: int| in_grid(voronoi.width as int, voronoi.height as int, max_x as int, cy) && cy < y && #[trigger] voronoi.cell(max_x as int, cy) == mask
                &&& exists|cx: int| in_grid(voronoi.width as int, voronoi.height as int, cx, max_y as int) && max_y < y && #[trigger] voronoi.cell(cx, max_y as int) == mask
            },
        decreases voronoi.height - y,
    {
        let mut x: i32 = 0;
        while x < voronoi.width
            invariant
                voronoi.wf(),
                0 <= y < voronoi.height,
                0 <= x <= voronoi.width,
                found <==> exists|cx: int, cy: int|
                    in_grid(voronoi.width as int, voronoi.height as int, cx, cy) && (cy < y || (cy == y && cx < x))
                        && #[trigger] voronoi.cell(cx, cy) == mask,
                !found ==> min_x == voronoi.width && min_y == voronoi.height && max_x == 0 && max_y == 0,
                forall|cx: int, cy: int|
                    in_grid(voronoi.width as int, voronoi.height as int, cx, cy) && (cy < y || (cy == y && cx < x))
                        && #[trigger] voronoi.cell(cx, cy) == mask ==> in_box(min_x as int, min_y as int, max_x as int, max_y as int, cx, cy),
                found ==> {
                    &&& exists|cy: int| in_grid(voronoi.width as int, voronoi.height as int, min_x as int, cy) && cy <= y && #[trigger] voronoi.cell(min_x as int, cy) == mask
                    &&& exists|cx: int| in_grid(voronoi.width as int, voronoi.height as int, cx, min_y as int) && min_y <= y && #[trigger] voronoi.cell(cx, min_y as int) == mask
                    &&& exists|cy: int| in_grid(voronoi.width as int, voronoi.height as int, max_x as int, cy) && cy <= y && #[trigger] voronoi.cell(max_x as int, cy) == mask
                    &&& exists|cx: int| in_grid(voronoi.width as int, voronoi.height as int, cx, max_y as int) && max_y <= y && #[trigger] voronoi.cell(cx, max_y as int) == mask
                },
            decreases voronoi.width - x,
        {
            if voronoi.get(x, y) == mask {
                if x < min_x {
                    min_x = x;
                }
                if y < min_y {
                    min_y = y;
                }
                if x > max_x {
                    max_x = x;
                }
                if y > max_y {
                    max_y = y;
                }
                proof {
                    found = true;
                }
            }
            x = x + 1;
        }
        y = y + 1;
    }
    let r = (min_x, min_y, max_x, max_y);
    proof {
        if exists|x: int, y: int|
            in_grid(voronoi.width as int, voronoi.height as int, x, y) && #[trigger] voronoi.cell(x, y) == mask {
            let (wx, wy) = choose|x: int, y: int|
                in_grid(voronoi.width as int, voronoi.height as int, x, y) && #[trigger] voronoi.cell(x, y) == mask;
            assert(voronoi.cell(wx, wy) == mask);
            assert(found);
            let a = choose|cy: int| in_grid(voronoi.width as int, voronoi.height as int, min_x as int, cy) && cy < y && #[trigger] voronoi.cell(min_x as int, cy) == mask;
            assert(in_grid(voronoi.width as int, voronoi.height as int, r.0 as int, a) && voronoi.cell(r.0 as int, a) == mask);
            let b = choose|cx: int| in_grid(voronoi.width as int, voronoi.height as int, cx, min_y as int) && min_y < y && #[trigger] voronoi.cell(cx, min_y as int) == mask;
            assert(in_grid(voronoi.width as int, voronoi.height as int, b, r.1 as int) && voronoi.cell(b, r.1 as int) == mask);
            let c = choose|cy: int| in_grid(voronoi.width as int, voronoi.height as int, max_x as int, cy) && cy < y && #[trigger] voronoi.cell(max_x as int, cy) == mask;
            assert(in_grid(voronoi.width as int, voronoi.height as int, r.2 as int, c) && voronoi.cell(r.2 as int, c) == mask);
            let d = choose|cx: int| in_grid(voronoi.width as int, voronoi.height as int, cx, max_y as int) && max_y < y && #[trigger] voronoi.cell(cx, max_y as int) == mask;
            assert(in_grid(voronoi.width as int, voronoi.height as int, d, r.3 as int) && voronoi.cell(d, r.3 as int) == mask);
        }
    }
    r
}

/// A point where three or more regions meet, with the labels of those regions.
#[derive(Clone, Debug)]
pub struct Vertex {
    pub x: i32,
    pub y: i32,
    pub borders: Vec<u32>,
}

/// The cells of one region and the vertices on its border.
#[derive(Clone, Debug)]
pub struct PointCollection {
    pub points: Vec<(i32, i32)>,
    pub vertices: Vec<Vertex>,
}

/// A labelled grid with the vertices between its regions and the cells of each region.
pub struct CityCollection {
    pub vor: Voronoi,
    pub point_count: u32,
    pub vertices: Vec<Vertex>,
    pub collections: HashMap<u32, PointCollection>,
}

/// The labels are in ascending order.
pub open spec fn sorted_labels(s: Seq<u32>) -> bool {
    forall|i: int, j: int| 0 <= i < j < s.len() ==> s[i] <= s[j]
}

proof fn lemma_insert_multiset(s: Seq<u32>, pos: int, a: u32)
    requires
        0 <= pos <= s.len(),
    ensures
        s.insert(pos, a).to_multiset() == s.to_multiset().insert(a),
{
    broadcast use vstd::seq_lib::group_seq_properties;
    let t = s.insert(pos, a);
    s.insert_ensures(pos, a);
    assert(t.remove(pos) =~= s);
    t.to_multiset_ensures();
    assert(t.to_multiset().remove(a) =~= s.to_multiset());
    assert(t.to_multiset().count(a) > 0);
    assert(t.to_multiset() =~= s.to_multiset().insert(a));
}

/// The labels are in strictly ascending order: ascending, each once.
pub open spec fn ascending_labels(s: Seq<u32>) -> bool {
    forall|i: int, j: int| 0 <= i < j < s.len() ==> s[i] < s[j]
}

/// A sequence with the same labels as one in which no label occurs twice has no label twice
/// either.
pub proof fn lemma_no_duplicates_same_multiset(a: Seq<u32>, b: Seq<u32>)
    requires
        a.to_multiset() == b.to_multiset(),
        b.no_duplicates(),
    ensures
        a.no_duplicates(),
{
    b.lemma_multiset_has_no_duplicates();
    a.lemma_multiset_has_no_duplicates_conv();
}

/// Puts the labels in ascending order; when no label occurs twice, the order is strict.
pub fn sort_labels(v: &mut Vec<u32>)
    ensures
        sorted_labels(final(v)@),
        final(v)@.to_multiset() == old(v)@.to_multiset(),
        old(v)@.no_duplicates() ==> ascending_labels(final(v)@),
{
    let ghost first = v@;
    broadcast use vstd::seq_lib::group_seq_properties;
    let mut out: Vec<u32> = Vec::new();
    let mut i: usize = 0;
    let n = v.len();
    while i < n
        invariant
            i <= n,
            n == v@.len(),
            sorted_labels(out@),
            out@.to_multiset() == v@.take(i as int).to_multiset(),
        decreases n - i,
    {
        let elt = v[i];
        let mut pos: usize = 0;
        while pos < out.len() && out[pos] <= elt
            invariant
                pos <= out@.len(),
                forall|j: int| 0 <= j < pos ==> out@[j] <= elt,
            decreases out@.len() - pos,
        {
            pos = pos + 1;
        }
        let ghost prev = out@;
        out.insert(pos, elt);
        proof {
            prev.insert_ensures(pos as int, elt);
            lemma_insert_multiset(prev, pos as int, elt);
            assert(v@.take(i + 1) =~= v@.take(i as int).push(elt));
            v@.take(i as int).to_multiset_ensures();
            assert forall|a: int, b: int| 0 <= a < b < out@.len() implies out@[a] <= out@[b] by {
                if b < pos {
                } else if b == pos {
                    assert(out@[a] == prev[a]);
                } else if a < pos {
                    assert(out@[b] == prev[b - 1]);
                    if pos < prev.len() {
                        assert(prev[pos as int] > elt);
                    }
                } else if a == pos {
                    assert(out@[b] == prev[b - 1]);
                    assert(prev[pos as int] > elt);
                    assert(prev[pos as int] <= prev[b - 1]);
                } else {
                    assert(out@[a] == prev[a - 1]);
                    assert(out@[b] == prev[b - 1]);
                }
            }
        }
        i = i + 1;
    }
    proof {
        assert(v@.take(n as int) =~= v@);
        if first.no_duplicates() {
            lemma_no_duplicates_same_multiset(out@, first);
        }
    }
    *v = out;
}

/// The offsets scanned around a cell: the cell, and two steps along each axis.
pub open spec fn plus_offsets() -> Seq<(int, int)> {
    seq![(0, -2), (0, -1), (-2, 0), (-1, 0), (0, 0), (1, 0), (2, 0), (0, 1), (0, 2)]
}

/// The labels at the scanned offsets around (x, y), in scan order.
pub open spec fn neighbor_labels(v: &Voronoi, x: int, y: int) -> Seq<u32> {
    plus_offsets().map_values(|o: (int, int)| v.cell(x + o.0, y + o.1))
}

/// The nonzero values of `s`, each once, in the order they first appear.
pub open spec fn distinct_nonzero(s: Seq<u32>) -> Seq<u32>
    decreases s.len(),
{
    if s.len() == 0 {
        Seq::empty()
    } else {
        let p = distinct_nonzero(s.drop_last());
        if s.last() != 0 && !p.contains(s.last()) {
            p.push(s.last())
        } else {
            p
        }
    }
}

/// The regions that meet around (x, y).
pub open spec fn kinds_at(v: &Voronoi, x: int, y: int) -> Seq<u32> {
    distinct_nonzero(neighbor_labels(v, x, y))
}

pub(crate) fn has_label(s: &Vec<u32>, v: u32) -> (r: bool)
    ensures
        r == s@.contains(v),
{
    let mut i: usize = 0;
    while i < s.len()
        invariant
            i <= s@.len(),
            forall|j: int| 0 <= j < i ==> s@[j] != v,
        decreases s@.len() - i,
    {
        if s[i] == v {
            assert(s@[i as int] == v);
            return true;
        }
        i = i + 1;
    }
    false
}

/// The grid is small enough that two steps past its edge stay inside `i32`.
pub open spec fn has_margin(v: &Voronoi) -> bool {
    v.width <= i32::MAX - 2 && v.height <= i32::MAX - 2
}

/// The distinct nonzero labels found on the cell (x, y) and up to two steps from it
/// along each axis, in scan order.
pub fn border_kinds(vor: &Voronoi, x: i32, y: i32) -> (r: Vec<u32>)
    requires
        vor.wf(),
        has_margin(vor),
        0 <= x < vor.width,
        0 <= y < vor.height,
    ensures
        r@ == kinds_at(vor, x as int, y as int),
{
    let offs: [(i32, i32); 9] = [(0, -2), (0, -1), (-2, 0), (-1, 0), (0, 0), (1, 0), (2, 0), (0, 1), (0, 2)];
    let ghost labels = neighbor_labels(vor, x as int, y as int);
    let mut kinds: Vec<u32> = Vec::new();
    let mut k: usize = 0;
    proof {
        assert(labels.take(0) =~= Seq::<u32>::empty());
    }
    while k < 9
        invariant
            vor.wf(),
            has_margin(vor),
            0 <= x < vor.width,
            0 <= y < vor.height,
            k <= 9,
            labels == neighbor_labels(vor, x as int, y as int),
            labels.len() == 9,
            forall|j: int| 0 <= j < 9 ==> offs@[j].0 == plus_offsets()[j].0 && offs@[j].1 == plus_offsets()[j].1,
            kinds@ == distinct_nonzero(labels.take(k as int)),
        decreases 9 - k,
    {
        let (dx, dy) = offs[k];
        let c = vor.get(x + dx, y + dy);
        assert(c == labels[k as int]);
        if c != 0 && !has_label(&kinds, c) {
            kinds.push(c);
        }
        proof {
            assert(labels.take(k + 1).drop_last() =~= labels.take(k as int));
        }
        k = k + 1;
    }
    proof {
        assert(labels.take(9) =~= labels);
    }
    kinds
}

/// Cell (x, y) comes strictly before cell (x2, y2) in row-major order.
pub open spec fn before_in_rows(x: int, y: int, x2: int, y2: int) -> bool {
    y < y2 || (y == y2 && x < x2)
}

/// Every cell around which more than two regions meet, as a vertex with those regions,
/// in row-major order.
pub fn find_vertices(vor: &Voronoi) -> (r: Vec<Vertex>)
    requires
        vor.wf(),
        has_margin(vor),
    ensures
        forall|k: int|
            #![trigger r@[k]]
            0 <= k < r@.len() ==> {
                &&& in_grid(vor.width as int, vor.height as int, r@[k].x as int, r@[k].y as int)
                &&& r@[k].borders@ == kinds_at(vor, r@[k].x as int, r@[k].y as int)
                &&& r@[k].borders@.len() > 2
            },
        forall|k1: int, k2: int|
            #![trigger r@[k1], r@[k2]]
            0 <= k1 < k2 < r@.len() ==> before_in_rows(
                r@[k1].x as int,
                r@[k1].y as int,
                r@[k2].x as int,
                r@[k2].y as int,
            ),
        forall|x: int, y: int|
            in_grid(vor.width as int, vor.height as int, x, y) && #[trigger] kinds_at(vor, x, y).len() > 2
                ==> exists|k: int| 0 <= k < r@.len() && r@[k].x == x && r@[k].y == y,
        r@.len() <= vor.data@.len(),
{
    let mut list: Vec<Vertex> = Vec::new();
    let mut y: i32 = 0;
    while y < vor.height
        invariant
            vor.wf(),
            has_margin(vor),
            0 <= y <= vor.height,
            list@.len() <= y * vor.width,
            forall|k: int|
                #![trigger list@[k]]
                0 <= k < list@.len() ==> {
                    &&& in_grid(vor.width as int, vor.height as int, list@[k].x as int, list@[k].y as int)
                    &&& list@[k].y < y
                    &&& list@[k].borders@ == kinds_at(vor, list@[k].x as int, list@[k].y as int)
                    &&& list@[k].borders@.len() > 2
                },
            forall|k1: int, k2: int|
                #![trigger list@[k1], list@[k2]]
                0 <= k1 < k2 < list@.len() ==> before_in_rows(
                    list@[k1].x as int,
                    list@[k1].y as int,
                    list@[k2].x as int,
                    list@[k2].y as int,
                ),
            forall|cx: int, cy: int|
                in_grid(vor.width as int, vor.height as int, cx, cy) && cy < y && #[trigger] kinds_at(vor, cx, cy).len() > 2
                    ==> exists|k: int| 0 <= k < list@.len() && list@[k].x == cx && list@[k].y == cy,
        decreases vor.height - y,
    {
        let mut x: i32 = 0;
        while x < vor.width
            invariant
                vor.wf(),
                has_margin(vor),
                0 <= y < vor.height,
                0 <= x <= vor.width,
                list@.len() <= y * vor.width + x,
                forall|k: int|
                    #![trigger list@[k]]
                    0 <= k < list@.len() ==> {
                        &&& in_grid(vor.width as int, vor.height as int, list@[k].x as int, list@[k].y as int)
                        &&& before_in_rows(list@[k].x as int, list@[k].y as int, x as int, y as int)
                        &&& list@[k].borders@ == kinds_at(vor, list@[k].x as int, list@[k].y as int)
                        &&& list@[k].borders@.len() > 2
                    },
                forall|k1: int, k2: int|
                    #![trigger list@[k1], list@[k2]]
                    0 <= k1 < k2 < list@.len() ==> before_in_rows(
                        list@[k1].x as int,
                        list@[k1].y as int,
                        list@[k2].x as int,
                        list@[k2].y as int,
                    ),
                forall|cx: int, cy: int|
                    in_grid(vor.width as int, vor.height as int, cx, cy) && before_in_rows(cx, cy, x as int, y as int)
                        && #[trigger] kinds_at(vor, cx, cy).len() > 2 ==> exists|k: int|
                        0 <= k < list@.len() && list@[k].x == cx && list@[k].y == cy,
            decreases vor.width - x,
        {
            let kinds = border_kinds(vor, x, y);
            if kinds.len() > 2 {
                let ghost prev = list@;
                list.push(Vertex { x, y, borders: kinds });
                proof {
                    assert forall|cx: int, cy: int|
                        in_grid(vor.width as int, vor.height as int, cx, cy) && before_in_rows(cx, cy, x + 1, y as int)
                            && #[trigger] kinds_at(vor, cx, cy).len() > 2 implies exists|k: int|
                            0 <= k < list@.len() && list@[k].x == cx && list@[k].y == cy by {
                        if cx == x && cy == y {
                            assert(list@[prev.len() as int].x == cx);
                        } else {
                            let k = choose|k: int| 0 <= k < prev.len() && prev[k].x == cx && prev[k].y == cy;
                            assert(list@[k] == prev[k]);
                        }
                    }
                }
            }
            x = x + 1;
        }
        assert(y * vor.width + vor.width == (y + 1) * vor.width) by (nonlinear_arith);
        y = y + 1;
    }
    assert(vor.height * vor.width == vor.width * vor.height) by (nonlinear_arith);
    list
}

impl Vertex {
    /// A copy of the vertex.
    pub fn copy(&self) -> (r: Vertex)
        ensures
            same_vertex(r, *self),
    {
        let mut borders: Vec<u32> = Vec::new();
        let mut i: usize = 0;
        while i < self.borders.len()
            invariant
                i <= self.borders@.len(),
                borders@ == self.borders@.take(i as int),
            decreases self.borders@.len() - i,
        {
            borders.push(self.borders[i]);
            proof {
                assert(self.borders@.take(i + 1) =~= self.borders@.take(i as int).push(self.borders@[i as int]));
            }
            i = i + 1;
        }
        proof {
            assert(self.borders@.take(self.borders@.len() as int) =~= self.borders@);
        }
        Vertex { x: self.x, y: self.y, borders }
    }
}

/// Two vertices have the same position and the same border labels.
pub open spec fn same_vertex(a: Vertex, b: Vertex) -> bool {
    a.x == b.x && a.y == b.y && a.borders@ == b.borders@
}

/// The position of the `i`-th cell in row-major order.
pub open spec fn cell_position(v: &Voronoi, i: int) -> (i32, i32) {
    ((i % (v.width as int)) as i32, (i / (v.width as int)) as i32)
}

/// The positions of the cells labelled `l` among the first `n` cells, in row-major order.
pub open spec fn label_cells(v: &Voronoi, l: u32, n: int) -> Seq<(i32, i32)>
    decreases n,
{
    if n <= 0 {
        Seq::empty()
    } else {
        let p = label_cells(v, l, n - 1);
        if v.data@[n - 1] == l {
            p.push(cell_position(v, n - 1))
        } else {
            p
        }
    }
}

proof fn lemma_label_cells_absent(v: &Voronoi, l: u32, n: int)
    requires
        forall|j: int| 0 <= j < n ==> v.data@[j] != l,
    ensures
        label_cells(v, l, n) == Seq::<(i32, i32)>::empty(),
    decreases n,
{
    if n > 0 {
        lemma_label_cells_absent(v, l, n - 1);
    }
}

/// Groups the cells of the grid by label: for each label present, its cells in row-major
/// order, with no vertices yet.
pub fn collect_points(vor: &Voronoi) -> (r: HashMap<u32, PointCollection>)
    requires
        vor.wf(),
    ensures
        forall|l: u32|
            #[trigger] r@.contains_key(l) <==> exists|i: int| 0 <= i < vor.data@.len() && vor.data@[i] == l,
        forall|l: u32|
            #[trigger] r@.contains_key(l) ==> r@[l].points@ == label_cells(vor, l, vor.data@.len() as int)
                && r@[l].vertices@.len() == 0,
{
    broadcast use vstd::std_specs::hash::group_hash_axioms;
    let mut map: HashMap<u32, PointCollection> = HashMap::new();
    let n = vor.data.len();
    let w = vor.width as usize;
    let mut i: usize = 0;
    while i < n
        invariant
            vor.wf(),
            n == vor.data@.len(),
            w == vor.width,
            i <= n,
            forall|l: u32|
                #[trigger] map@.contains_key(l) <==> exists|j: int| 0 <= j < i && vor.data@[j] == l,
            forall|l: u32|
                #[trigger] map@.contains_key(l) ==> map@[l].points@ == label_cells(vor, l, i as int)
                    && map@[l].vertices@.len() == 0,
        decreases n - i,
    {
        proof {
            if w == 0 {
                assert(vor.width * vor.height == 0);
            }
            assert((i as int) / (w as int) < vor.height) by (nonlinear_arith)
                requires
                    i < vor.width * vor.height,
                    w == vor.width,
                    w > 0,
            ;
        }
        let x = (i % w) as i32;
        let y = (i / w) as i32;
        let v0 = vor.data[i];
        let ghost old_map = map@;
        match map.remove(&v0) {
            Some(mut pc) => {
                pc.points.push((x, y));
                map.insert(v0, pc);
            },
            None => {
                let mut points: Vec<(i32, i32)> = Vec::new();
                points.push((x, y));
                map.insert(v0, PointCollection { points, vertices: Vec::new() });
            },
        }
        proof {
            assert(cell_position(vor, i as int) == (x, y));
            assert forall|l: u32| #[trigger] map@.contains_key(l) implies map@[l].points@ == label_cells(
                vor,
                l,
                i + 1,
            ) && map@[l].vertices@.len() == 0 by {
                if l != v0 {
                    assert(old_map.contains_key(l));
                    assert(map@[l] == old_map[l]);
                } else if !old_map.contains_key(v0) {
                    assert forall|j: int| 0 <= j < i implies vor.data@[j] != v0 by {
                        if vor.data@[j] == v0 {
                            assert(old_map.contains_key(vor.data@[j]));
                        }
                    }
                    lemma_label_cells_absent(vor, v0, i as int);
                }
            }
            assert forall|l: u32| (exists|j: int| 0 <= j < i + 1 && vor.data@[j] == l) implies #[trigger] map@.contains_key(l) by {
                if l != v0 {
                    let j = choose|j: int| 0 <= j < i + 1 && vor.data@[j] == l;
                    assert(j != i);
                    assert(old_map.contains_key(l));
                }
            }
            assert forall|l: u32| #[trigger] map@.contains_key(l) implies exists|j: int| 0 <= j < i + 1 && vor.data@[j] == l by {
                if l != v0 {
                    assert(old_map.contains_key(l));
                } else {
                    assert(vor.data@[i as int] == v0);
                }
            }
        }
        i = i + 1;
    }
    map
}

/// How many of the first `n` entries of `s` equal `l`.
pub open spec fn count_label(s: Seq<u32>, l: u32, n: int) -> nat
    decreases n,
{
    if n <= 0 {
        0
    } else {
        count_label(s, l, n - 1) + if s[n - 1] == l {
            1nat
        } else {
            0nat
        }
    }
}

/// The vertices among the first `n` of `list`, each repeated as often as label `l` occurs
/// in its borders, in order.
pub open spec fn vertices_on(list: Seq<Vertex>, l: u32, n: int) -> Seq<Vertex>
    decreases n,
{
    if n <= 0 {
        Seq::empty()
    } else {
        vertices_on(list, l, n - 1) + Seq::new(
            count_label(list[n - 1].borders@, l, list[n - 1].borders@.len() as int),
            |k: int| list[n - 1],
        )
    }
}

/// The two sequences hold the same vertices, position by position.
pub open spec fn same_vertices(a: Seq<Vertex>, b: Seq<Vertex>) -> bool {
    a.len() == b.len() && forall|i: int| 0 <= i < a.len() ==> #[trigger] same_vertex(a[i], b[i])
}

fn push_vertex_to(cols: &mut HashMap<u32, PointCollection>, l: u32, v: &Vertex)
    requires
        old(cols)@.contains_key(l),
    ensures
        final(cols)@.dom() == old(cols)@.dom(),
        final(cols)@[l].points == old(cols)@[l].points,
        final(cols)@[l].vertices@.len() == old(cols)@[l].vertices@.len() + 1,
        forall|i: int|
            0 <= i < old(cols)@[l].vertices@.len() ==> final(cols)@[l].vertices@[i] == old(
                cols,
            )@[l].vertices@[i],
        same_vertex(final(cols)@[l].vertices@.last(), *v),
        forall|m: u32| m != l && #[trigger] old(cols)@.contains_key(m) ==> final(cols)@[m] == old(cols)@[m],
{
    broadcast use vstd::std_specs::hash::group_hash_axioms;
    let ghost before = cols@;
    match cols.remove(&l) {
        Some(mut pc) => {
            pc.vertices.push(v.copy());
            cols.insert(l, pc);
            proof {
                assert(cols@.dom() =~= before.dom());
            }
        },
        None => {},
    }
}

/// Adds each vertex to the vertex list of every region on its border (once per time the
/// region's label occurs there), in order.
pub fn attach_vertices(list: &Vec<Vertex>, cols: &mut HashMap<u32, PointCollection>)
    requires
        forall|i: int, j: int|
            0 <= i < list@.len() && 0 <= j < list@[i].borders@.len() ==> old(cols)@.contains_key(
                #[trigger] list@[i].borders@[j],
            ),
    ensures
        final(cols)@.dom() == old(cols)@.dom(),
        forall|l: u32|
            #[trigger] old(cols)@.contains_key(l) ==> {
                &&& final(cols)@[l].points == old(cols)@[l].points
                &&& same_vertices(
                    final(cols)@[l].vertices@,
                    old(cols)@[l].vertices@ + vertices_on(list@, l, list@.len() as int),
                )
            },
{
    let ghost before = cols@;
    let mut i: usize = 0;
    while i < list.len()
        invariant
            i <= list@.len(),
            cols@.dom() == before.dom(),
            forall|i: int, j: int|
                0 <= i < list@.len() && 0 <= j < list@[i].borders@.len() ==> before.contains_key(
                    #[trigger] list@[i].borders@[j],
                ),
            forall|l: u32|
                #[trigger] before.contains_key(l) ==> {
                    &&& cols@[l].points == before[l].points
                    &&& same_vertices(
                        cols@[l].vertices@,
                        before[l].vertices@ + vertices_on(list@, l, i as int),
                    )
                },
        decreases list@.len() - i,
    {
        let v = &list[i];
        let ghost mid = cols@;
        let mut j: usize = 0;
        while j < v.borders.len()
            invariant
                i < list@.len(),
                *v == list@[i as int],
                j <= v.borders@.len(),
                cols@.dom() == before.dom(),
                forall|i: int, j: int|
                    0 <= i < list@.len() && 0 <= j < list@[i].borders@.len() ==> before.contains_key(
                        #[trigger] list@[i].borders@[j],
                    ),
                forall|l: u32|
                    #[trigger] before.contains_key(l) ==> {
                        &&& cols@[l].points == before[l].points
                        &&& same_vertices(
                            mid[l].vertices@,
                            before[l].vertices@ + vertices_on(list@, l, i as int),
                        )
                        &&& cols@[l].vertices@.len() == mid[l].vertices@.len() + count_label(
                            v.borders@,
                            l,
                            j as int,
                        )
                        &&& forall|k: int|
                            0 <= k < mid[l].vertices@.len() ==> cols@[l].vertices@[k]
                                == mid[l].vertices@[k]
                        &&& forall|k: int|
                            mid[l].vertices@.len() <= k < cols@[l].vertices@.len() ==> same_vertex(
                                #[trigger] cols@[l].vertices@[k],
                                *v,
                            )
                    },
            decreases v.borders@.len() - j,
        {
            let l = v.borders[j];
            assert(before.contains_key(list@[i as int].borders@[j as int]));
            push_vertex_to(cols, l, v);
            j = j + 1;
        }
        proof {
            assert forall|l: u32| #[trigger] before.contains_key(l) implies {
                &&& cols@[l].points == before[l].points
                &&& same_vertices(
                    cols@[l].vertices@,
                    before[l].vertices@ + vertices_on(list@, l, i + 1),
                )
            } by {
                let a = cols@[l].vertices@;
                let b = before[l].vertices@ + vertices_on(list@, l, i + 1);
                let pre = before[l].vertices@ + vertices_on(list@, l, i as int);
                assert(vertices_on(list@, l, i + 1) == vertices_on(list@, l, i as int) + Seq::new(
                    count_label(list@[i as int].borders@, l, list@[i as int].borders@.len() as int),
                    |k: int| list@[i as int],
                ));
                assert forall|k: int| 0 <= k < a.len() implies #[trigger] same_vertex(a[k], b[k]) by {
                    if k < mid[l].vertices@.len() {
                        assert(same_vertex(mid[l].vertices@[k], pre[k]));
                    }
                }
            }
        }
        i = i + 1;
    }
}

} // verus!
