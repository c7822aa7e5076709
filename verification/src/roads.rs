use crate::array2d::{cell_index, Array2d};
use crate::generator::rand_select;
use crate::subdivide::random_u64;
use vstd::prelude::*;

verus! {

/// (x, y) lies on a `width` by `height` field.
pub open spec fn on_field(width: int, height: int, p: (i32, i32)) -> bool {
    0 <= p.0 < width && 0 <= p.1 < height
}

/// `b` is one of the eight cells around `a`.
pub open spec fn next_to(a: (i32, i32), b: (i32, i32)) -> bool {
    -1 <= b.0 - a.0 <= 1 && -1 <= b.1 - a.1 <= 1 && a != b
}

/// `step` can be called at every cell of the field, and each step it gives leads to one of
/// the eight cells around, on the field.
pub open spec fn steps_within<S: Fn(i32, i32, bool) -> Option<(i32, i32)>>(step: S, width: int, height: int) -> bool {
    &&& forall|x: i32, y: i32, par: bool|
        on_field(width, height, (x, y)) ==> #[trigger] call_requires(step, (x, y, par))
    &&& forall|x: i32, y: i32, par: bool, r: Option<(i32, i32)>|
        on_field(width, height, (x, y)) && #[trigger] call_ensures(step, (x, y, par), r) ==> match r {
            Some(d) => -1 <= d.0 <= 1 && -1 <= d.1 <= 1 && !(d.0 == 0 && d.1 == 0) && on_field(
                width,
                height,
                ((x + d.0) as i32, (y + d.1) as i32),
            ),
            None => true,
        }
}

/// The cell `p` of a `width`-wide grid is marked.
pub open spec fn marked(hits: Seq<bool>, width: int, p: (i32, i32)) -> bool {
    hits[cell_index(width as nat, p.0 as nat, p.1 as nat)]
}

/// `path` runs over the field from cell to neighbouring cell, and every cell of it but
/// possibly the last is marked in `hits`.
pub open spec fn traced(path: Seq<(i32, i32)>, hits: Seq<bool>, width: int, height: int) -> bool {
    &&& forall|i: int| 0 <= i < path.len() ==> on_field(width, height, #[trigger] path[i])
    &&& forall|i: int| 0 <= i < path.len() - 1 ==> next_to(#[trigger] path[i], path[i + 1])
    &&& forall|i: int| 0 <= i < path.len() - 1 ==> marked(hits, width, #[trigger] path[i])
}

/// The cell one step `d` away from `p`.
pub open spec fn stepped(p: (i32, i32), d: (i32, i32)) -> (i32, i32) {
    ((p.0 + d.0) as i32, (p.1 + d.1) as i32)
}

/// `step`, asked at cell `a` with `par`, may lead to cell `b`.
pub open spec fn steps_to<S: Fn(i32, i32, bool) -> Option<(i32, i32)>>(step: S, par: bool, a: (i32, i32), b: (i32, i32)) -> bool {
    exists|d: (i32, i32)| #[trigger] call_ensures(step, (a.0, a.1, par), Some(d)) && b == stepped(a, d)
}

/// `path` goes from cell to cell as `step`, asked with `par`, leads.
pub open spec fn follows<S: Fn(i32, i32, bool) -> Option<(i32, i32)>>(step: S, par: bool, path: Seq<(i32, i32)>) -> bool {
    forall|i: int| 0 <= i < path.len() - 1 ==> steps_to(step, par, #[trigger] path[i], path[i + 1])
}

/// A walk along `path` came to its end of itself: `step` may give nothing at its last cell,
/// or it has more cells than the field is wide.
pub open spec fn walk_ended<S: Fn(i32, i32, bool) -> Option<(i32, i32)>>(step: S, par: bool, path: Seq<(i32, i32)>, width: int) -> bool {
    path.len() > width || call_ensures(step, (path.last().0, path.last().1, par), None::<(i32, i32)>)
}

/// Some road of `roads` begins at cell `s`.
pub open spec fn road_from(roads: Seq<Vec<(i32, i32)>>, s: (i32, i32)) -> bool {
    exists|k: int| 0 <= k < roads.len() && (#[trigger] roads[k])@.len() > 0 && roads[k]@[0] == s
}

/// A walk of at most 8 cells from `s`, following `step` with some `par`, came to its end of
/// itself.
pub open spec fn short_walk_from<S: Fn(i32, i32, bool) -> Option<(i32, i32)>>(step: S, width: int, s: (i32, i32)) -> bool {
    exists|par: bool, c: Seq<(i32, i32)>|
        1 <= c.len() <= 8 && c[0] == s && #[trigger] follows(step, par, c) && walk_ended(step, par, c, width)
}

/// The start `s` was tried: a road begins at it, or a walk from it ended within 8 cells.
pub open spec fn start_tried<S: Fn(i32, i32, bool) -> Option<(i32, i32)>>(
    step: S,
    width: int,
    roads: Seq<Vec<(i32, i32)>>,
    s: (i32, i32),
) -> bool {
    road_from(roads, s) || short_walk_from(step, width, s)
}

/// What `trace_roads` promises of the roads it gives for `starts`: no more roads than starts,
/// each road begins at a start and follows `step`, and every start was tried.
pub open spec fn roads_from_starts<S: Fn(i32, i32, bool) -> Option<(i32, i32)>>(
    step: S,
    width: int,
    starts: Seq<(i32, i32)>,
    roads: Seq<Vec<(i32, i32)>>,
) -> bool {
    &&& roads.len() <= starts.len()
    &&& forall|k: int|
        0 <= k < roads.len() ==> (#[trigger] roads[k])@.len() > 0 && starts.contains(roads[k]@[0]) && exists|par: bool|
            #[trigger] follows(step, par, roads[k]@)
    &&& forall|i: int| 0 <= i < starts.len() ==> start_tried(step, width, roads, #[trigger] starts[i])
}

/// A start from which `step` keeps going for the first 8 cells of every walk, on a field at
/// least 8 wide, begins one of the roads: no start is passed over.
pub proof fn law_long_walks_become_roads<S: Fn(i32, i32, bool) -> Option<(i32, i32)>>(
    step: S,
    width: int,
    starts: Seq<(i32, i32)>,
    roads: Seq<Vec<(i32, i32)>>,
    s: (i32, i32),
)
    requires
        roads_from_starts(step, width, starts, roads),
        starts.contains(s),
        width >= 8,
        forall|par: bool, c: Seq<(i32, i32)>|
            1 <= c.len() <= 8 && c[0] == s && #[trigger] follows(step, par, c) ==> !call_ensures(
                step,
                (c.last().0, c.last().1, par),
                None::<(i32, i32)>,
            ),
    ensures
        road_from(roads, s),
{
    let i = choose|i: int| 0 <= i < starts.len() && starts[i] == s;
    assert(start_tried(step, width, roads, starts[i]));
    if !road_from(roads, s) {
        let (par, c) = choose|par: bool, c: Seq<(i32, i32)>|
            1 <= c.len() <= 8 && c[0] == s && #[trigger] follows(step, par, c) && walk_ended(step, par, c, width);
    }
}

/// A start tried against some roads stays tried when more roads are added after them.
proof fn lemma_tried_kept<S: Fn(i32, i32, bool) -> Option<(i32, i32)>>(
    step: S,
    width: int,
    a: Seq<Vec<(i32, i32)>>,
    b: Seq<Vec<(i32, i32)>>,
    s: (i32, i32),
)
    requires
        start_tried(step, width, a, s),
        a.len() <= b.len(),
        forall|k: int| 0 <= k < a.len() ==> #[trigger] b[k] == a[k],
    ensures
        start_tried(step, width, b, s),
{
    if road_from(a, s) {
        let k = choose|k: int| 0 <= k < a.len() && (#[trigger] a[k])@.len() > 0 && a[k]@[0] == s;
        assert(b[k] == a[k]);
    }
}

proof fn lemma_on_field_index(width: int, height: int, p: (i32, i32))
    requires
        on_field(width, height, p),
    ensures
        0 <= cell_index(width as nat, p.0 as nat, p.1 as nat) < width * height,
{
    assert(p.1 * width + p.0 < width * height) by (nonlinear_arith)
        requires
            0 <= p.0 < width,
            0 <= p.1 < height,
    ;
    assert(p.1 * width >= 0) by (nonlinear_arith)
        requires
            0 <= p.1,
            width > 0,
    ;
}

/// A copy of a grid of marks.
fn copy_marks(a: &Array2d<bool>) -> (r: Array2d<bool>)
    requires
        a.wf(),
    ensures
        r.wf(),
        r.cells() == a.cells(),
        r.spec_width() == a.spec_width(),
        r.spec_height() == a.spec_height(),
{
    let d = a.data();
    let mut v: Vec<bool> = Vec::new();
    let mut i: usize = 0;
    while i < d.len()
        invariant
            i <= d@.len(),
            v@ == d@.take(i as int),
        decreases d@.len() - i,
    {
        v.push(d[i]);
        proof {
            assert(d@.take(i + 1) =~= d@.take(i as int).push(d@[i as int]));
        }
        i = i + 1;
    }
    proof {
        assert(d@.take(d@.len() as int) =~= d@);
    }
    Array2d::from_vec(v, a.width(), a.height())
}

/// `p` lies in the 8 by 8 block at column `bx` and row `by` of blocks.
pub open spec fn in_block(p: (i32, i32), bx: int, by: int) -> bool {
    bx * 8 <= p.0 < bx * 8 + 8 && by * 8 <= p.1 < by * 8 + 8
}

/// `r` holds one point per 8 by 8 block of a `width` by `height` field, block columns in
/// turn and, within each, block rows in turn: the `k`-th point lies in block column
/// `k / (height / 8)` and block row `k % (height / 8)`.
pub open spec fn one_per_block(r: Seq<(i32, i32)>, width: int, height: int) -> bool {
    &&& r.len() == (width / 8) * (height / 8)
    &&& forall|k: int| 0 <= k < r.len() ==> #[trigger] in_block(r[k], k / (height / 8), k % (height / 8))
}

/// Some point of `r` lies in the block at column `bx` and row `by` of blocks.
pub open spec fn block_held(r: Seq<(i32, i32)>, bx: int, by: int) -> bool {
    exists|k: int| 0 <= k < r.len() && #[trigger] in_block(r[k], bx, by)
}

/// Every whole 8 by 8 block of the field holds exactly one of the points, and no point lies
/// outside the whole blocks.
pub proof fn law_each_block_gets_one_start(r: Seq<(i32, i32)>, width: int, height: int)
    requires
        width >= 0,
        height >= 0,
        one_per_block(r, width, height),
    ensures
        forall|bx: int, by: int| 0 <= bx < width / 8 && 0 <= by < height / 8 ==> #[trigger] block_held(r, bx, by),
        forall|bx: int, by: int, k1: int, k2: int|
            0 <= k1 < r.len() && 0 <= k2 < r.len() && #[trigger] in_block(r[k1], bx, by) && #[trigger] in_block(
                r[k2],
                bx,
                by,
            ) ==> k1 == k2,
        forall|k: int| 0 <= k < r.len() ==> 0 <= #[trigger] r[k].0 < (width / 8) * 8 && 0 <= r[k].1 < (height / 8) * 8,
{
    let hb = height / 8;
    let wb = width / 8;
    assert forall|bx: int, by: int| 0 <= bx < wb && 0 <= by < hb implies #[trigger] block_held(r, bx, by) by {
        let k = bx * hb + by;
        vstd::arithmetic::div_mod::lemma_fundamental_div_mod_converse(k, hb, bx, by);
        assert(0 <= k < wb * hb) by (nonlinear_arith)
            requires
                0 <= bx < wb,
                0 <= by < hb,
                k == bx * hb + by,
        ;
        assert(in_block(r[k], k / hb, k % hb));
    }
    assert forall|bx: int, by: int, k1: int, k2: int|
        0 <= k1 < r.len() && 0 <= k2 < r.len() && #[trigger] in_block(r[k1], bx, by) && #[trigger] in_block(r[k2], bx, by)
            implies k1 == k2 by {
        assert(hb > 0) by (nonlinear_arith)
            requires
                r.len() == wb * hb,
                r.len() > 0,
                wb >= 0,
                hb >= 0,
        ;
        assert(in_block(r[k1], k1 / hb, k1 % hb));
        assert(in_block(r[k2], k2 / hb, k2 % hb));
        assert(k1 / hb == bx && k1 % hb == by);
        assert(k2 / hb == bx && k2 % hb == by);
        vstd::arithmetic::div_mod::lemma_fundamental_div_mod(k1, hb);
        vstd::arithmetic::div_mod::lemma_fundamental_div_mod(k2, hb);
    }
    assert forall|k: int| 0 <= k < r.len() implies 0 <= #[trigger] r[k].0 < wb * 8 && 0 <= r[k].1 < hb * 8 by {
        assert(hb > 0) by (nonlinear_arith)
            requires
                r.len() == wb * hb,
                r.len() > 0,
                wb >= 0,
                hb >= 0,
        ;
        assert(in_block(r[k], k / hb, k % hb));
        vstd::arithmetic::div_mod::lemma_fundamental_div_mod(k, hb);
        assert(0 <= k / hb < wb) by (nonlinear_arith)
            requires
                0 <= k < wb * hb,
                hb > 0,
                k == hb * (k / hb) + k % hb,
                0 <= k % hb < hb,
        ;
        assert(0 <= k % hb < hb);
    }
}

/// One starting cell in each 8 by 8 block of a `width` by `height` field, at a random place
/// in the block.
pub fn starting_points(width: i32, height: i32) -> (r: Vec<(i32, i32)>)
    requires
        width >= 0,
        height >= 0,
    ensures
        forall|i: int| 0 <= i < r@.len() ==> on_field(width as int, height as int, #[trigger] r@[i]),
        r@.len() == (width / 8) * (height / 8),
        one_per_block(r@, width as int, height as int),
{
    let mut out: Vec<(i32, i32)> = Vec::new();
    let mut bx: i32 = 0;
    while bx < width / 8
        invariant
            width >= 0,
            height >= 0,
            0 <= bx <= width / 8,
            out@.len() == bx * (height / 8),
            forall|i: int| 0 <= i < out@.len() ==> on_field(width as int, height as int, #[trigger] out@[i]),
            forall|k: int| 0 <= k < out@.len() ==> #[trigger] in_block(out@[k], k / (height / 8), k % (height / 8)),
        decreases width / 8 - bx,
    {
        let mut by: i32 = 0;
        while by < height / 8
            invariant
                width >= 0,
                height >= 0,
                0 <= bx < width / 8,
                0 <= by <= height / 8,
                out@.len() == bx * (height / 8) + by,
                forall|i: int| 0 <= i < out@.len() ==> on_field(width as int, height as int, #[trigger] out@[i]),
                forall|k: int| 0 <= k < out@.len() ==> #[trigger] in_block(out@[k], k / (height / 8), k % (height / 8)),
            decreases height / 8 - by,
        {
            let jx = (random_u64() % 8) as i32;
            let jy = (random_u64() % 8) as i32;
            assert(bx * 8 + jx < width) by (nonlinear_arith)
                requires
                    0 <= bx < width / 8,
                    0 <= jx < 8,
                    width >= 0,
            ;
            assert(by * 8 + jy < height) by (nonlinear_arith)
                requires
                    0 <= by < height / 8,
                    0 <= jy < 8,
                    height >= 0,
            ;
            let ghost out0 = out@;
            out.push((bx * 8 + jx, by * 8 + jy));
            proof {
                let kk = bx * (height / 8) + by;
                vstd::arithmetic::div_mod::lemma_fundamental_div_mod_converse(kk, height as int / 8, bx as int, by as int);
                assert(in_block(out@[kk], kk / (height / 8), kk % (height / 8)));
                assert forall|k: int| 0 <= k < out@.len() implies #[trigger] in_block(out@[k], k / (height / 8), k % (height / 8)) by {
                    if k < out0.len() {
                        assert(out@[k] == out0[k]);
                    }
                }
            }
            by = by + 1;
        }
        assert((bx + 1) * (height / 8) == bx * (height / 8) + height / 8) by (nonlinear_arith);
        bx = bx + 1;
    }
    out
}

/// Traces roads over a `width` by `height` field. Starting cells are taken in random order;
/// from each, a walk follows `step` (which picks the next of the eight cells around, along
/// the field or across it as `par` says, chosen at random for each try) for at most `width`
/// steps, marking the cells it passes. It stops where `step` gives nothing, or after more
/// than 32 further steps over marked cells once it has met one. A walk of more than 8 cells
/// is kept as a road; a shorter one is undone and tried again from the same cell, at most 8
/// times. Returns the roads and the marked cells.
pub fn trace_roads<S: Fn(i32, i32, bool) -> Option<(i32, i32)>>(
    width: i32,
    height: i32,
    starts: Vec<(i32, i32)>,
    step: &S,
) -> (r: (Vec<Vec<(i32, i32)>>, Array2d<bool>))
    requires
        width >= 0,
        height >= 0,
        width * height <= i32::MAX,
        forall|i: int| 0 <= i < starts@.len() ==> on_field(width as int, height as int, #[trigger] starts@[i]),
        steps_within(*step, width as int, height as int),
    ensures
        r.1.wf(),
        r.1.spec_width() == width,
        r.1.spec_height() == height,
        forall|k: int|
            0 <= k < r.0@.len() ==> (#[trigger] r.0@[k])@.len() > 8 && traced(
                r.0@[k]@,
                r.1.cells(),
                width as int,
                height as int,
            ),
        roads_from_starts(*step, width as int, starts@, r.0@),
{
    let w = width as usize;
    let h = height as usize;
    let n = w * h;
    let mut cells: Vec<bool> = Vec::new();
    let mut i: usize = 0;
    while i < n
        invariant
            i <= n,
            cells@.len() == i,
        decreases n - i,
    {
        cells.push(false);
        i = i + 1;
    }
    let mut hits = Array2d::from_vec(cells, w, h);
    let mut out: Vec<Vec<(i32, i32)>> = Vec::new();
    let ghost orig = starts@;
    let mut starts = starts;
    proof {
        assert forall|i: int| 0 <= i < orig.len() implies start_tried(*step, width as int, out@, #[trigger] orig[i])
            || starts@.contains(orig[i]) by {
            assert(starts@[i] == orig[i]);
        }
        assert forall|i: int| 0 <= i < starts@.len() implies orig.contains(#[trigger] starts@[i]) by {
            assert(orig[i] == starts@[i]);
        }
    }
    while starts.len() > 0
        invariant
            out@.len() + starts@.len() <= orig.len(),
            forall|i: int| 0 <= i < starts@.len() ==> orig.contains(#[trigger] starts@[i]),
            forall|k: int|
                0 <= k < out@.len() ==> (#[trigger] out@[k])@.len() > 0 && orig.contains(out@[k]@[0]) && exists|par: bool|
                    #[trigger] follows(*step, par, out@[k]@),
            forall|i: int|
                0 <= i < orig.len() ==> start_tried(*step, width as int, out@, #[trigger] orig[i]) || starts@.contains(
                    orig[i],
                ),
            width >= 0,
            height >= 0,
            width * height <= i32::MAX,
            w == width,
            h == height,
            hits.wf(),
            hits.spec_width() == w,
            hits.spec_height() == h,
            steps_within(*step, width as int, height as int),
            forall|i: int| 0 <= i < starts@.len() ==> on_field(width as int, height as int, #[trigger] starts@[i]),
            forall|k: int|
                0 <= k < out@.len() ==> (#[trigger] out@[k])@.len() > 8 && traced(
                    out@[k]@,
                    hits.cells(),
                    width as int,
                    height as int,
                ),
        decreases starts@.len(),
    {
        let ghost before = starts@;
        let start = rand_select(&mut starts);
        let ghost o0 = out@;
        let ghost j = choose|j: int| 0 <= j < before.len() && start == before[j] && starts@ == before.remove(j);
        proof {
            assert(orig.contains(before[j]));
            assert(on_field(width as int, height as int, before[j]));
            assert forall|i: int| 0 <= i < starts@.len() implies on_field(width as int, height as int, #[trigger] starts@[i]) by {
                if i < j {
                    assert(starts@[i] == before[i]);
                } else {
                    assert(starts@[i] == before[i + 1]);
                }
            }
        }
        let prev = copy_marks(&hits);
        let mut try_count: u32 = 0;
        loop
            invariant_except_break
                out@ == o0,
                width >= 0,
                height >= 0,
                width * height <= i32::MAX,
                w == width,
                h == height,
                hits.wf(),
                hits.spec_width() == w,
                hits.spec_height() == h,
                prev.cells() == hits.cells(),
                prev.wf(),
                prev.spec_width() == w,
                prev.spec_height() == h,
                steps_within(*step, width as int, height as int),
                on_field(width as int, height as int, start),
                try_count < 8,
                forall|k: int|
                    0 <= k < out@.len() ==> (#[trigger] out@[k])@.len() > 8 && traced(
                        out@[k]@,
                        hits.cells(),
                        width as int,
                        height as int,
                    ),
            ensures
                hits.wf(),
                hits.spec_width() == w,
                hits.spec_height() == h,
                forall|k: int|
                    0 <= k < out@.len() ==> (#[trigger] out@[k])@.len() > 8 && traced(
                        out@[k]@,
                        hits.cells(),
                        width as int,
                        height as int,
                    ),
                o0.len() <= out@.len() <= o0.len() + 1,
                forall|k: int| 0 <= k < o0.len() ==> #[trigger] out@[k] == o0[k],
                out@.len() > o0.len() ==> out@.last()@.len() > 0 && out@.last()@[0] == start && exists|par: bool|
                    #[trigger] follows(*step, par, out@.last()@),
                start_tried(*step, width as int, out@, start),
            decreases 8 - try_count,
        {
            let par = random_u64() % 100 < 50;
            let mut x = start.0;
            let mut y = start.1;
            let ghost base = hits.cells();
            proof {
                lemma_on_field_index(width as int, height as int, (x, y));
            }
            *hits.get_at_mut(x as usize, y as usize) = true;
            proof {
                let ci = cell_index(w as nat, x as nat, y as nat);
                assert forall|p: int| 0 <= p < base.len() && base[p] implies #[trigger] hits.cells()[p] by {
                    if p != ci {
                        assert(hits.cells()[p] == base[p]);
                    }
                }
            }
            let mut c: Vec<(i32, i32)> = Vec::new();
            c.push((x, y));
            let mut idx: i32 = 0;
            let mut last_was_hit = false;
            let mut hit_count: u32 = 0;
            while idx < width
                invariant_except_break
                    width >= 0,
                    height >= 0,
                    width * height <= i32::MAX,
                    w == width,
                    h == height,
                    hits.wf(),
                    hits.spec_width() == w,
                    hits.spec_height() == h,
                    steps_within(*step, width as int, height as int),
                    0 <= idx <= width,
                    hit_count <= 33,
                    c@.len() == idx + 1,
                    c@.len() <= width + 1,
                    c@.last() == (x, y),
                    on_field(width as int, height as int, (x, y)),
                    base.len() == hits.cells().len(),
                    forall|p: int| 0 <= p < base.len() && base[p] ==> #[trigger] hits.cells()[p],
                    traced(c@, hits.cells(), width as int, height as int),
                    c@[0] == start,
                    follows(*step, par, c@),
                    hit_count <= idx,
                ensures
                    c@[0] == start,
                    follows(*step, par, c@),
                    c@.len() <= 8 ==> walk_ended(*step, par, c@, width as int),
                    hits.wf(),
                    hits.spec_width() == w,
                    hits.spec_height() == h,
                    c@.len() >= 1,
                    forall|p: int| 0 <= p < base.len() && base[p] ==> #[trigger] hits.cells()[p],
                    traced(c@, hits.cells(), width as int, height as int),
                decreases width - idx,
            {
                proof {
                    lemma_on_field_index(width as int, height as int, (x, y));
                }
                if last_was_hit {
                    if *hits.get_at(x as usize, y as usize) {
                        if hit_count > 32 {
                            break;
                        } else {
                            hit_count += 1;
                        }
                    }
                } else {
                    if *hits.get_at(x as usize, y as usize) {
                        last_was_hit = true;
                        hit_count = 0;
                    } else {
                        last_was_hit = false;
                        hit_count = 0;
                    }
                }
                let ghost cells_before = hits.cells();
                *hits.get_at_mut(x as usize, y as usize) = true;
                proof {
                    let ci = cell_index(w as nat, x as nat, y as nat);
                    assert forall|p: int| 0 <= p < base.len() && base[p] implies #[trigger] hits.cells()[p] by {
                        if p != ci {
                            assert(hits.cells()[p] == cells_before[p]);
                        }
                    }
                    assert forall|i: int| 0 <= i < c@.len() - 1 implies marked(hits.cells(), width as int, #[trigger] c@[i]) by {
                        assert(marked(cells_before, width as int, c@[i]));
                        lemma_on_field_index(width as int, height as int, c@[i]);
                    }
                    assert(marked(hits.cells(), width as int, c@.last()));
                }
                let next = step(x, y, par);
                match next {
                    None => {
                        proof {
                            assert(call_ensures(*step, (x, y, par), next));
                            assert(walk_ended(*step, par, c@, width as int));
                        }
                        break;
                    },
                    Some(d) => {
                        let ghost c0 = c@;
                        let ghost px = x;
                        let ghost py = y;
                        x = x + d.0;
                        y = y + d.1;
                        c.push((x, y));
                        idx = idx + 1;
                        proof {
                            assert(call_ensures(*step, (px, py, par), Some(d)));
                            assert(steps_to(*step, par, (px, py), (x, y)));
                            assert(c@[0] == c0[0]);
                            assert forall|i: int| 0 <= i < c@.len() - 1 implies steps_to(*step, par, #[trigger] c@[i], c@[i + 1]) by {
                                assert(c@[i] == c0[i]);
                                if i + 1 < c0.len() {
                                    assert(c@[i + 1] == c0[i + 1]);
                                }
                            }
                            assert forall|i: int| 0 <= i < c@.len() implies on_field(width as int, height as int, #[trigger] c@[i]) by {
                                if i < c0.len() {
                                    assert(c@[i] == c0[i]);
                                }
                            }
                            assert forall|i: int| 0 <= i < c@.len() - 1 implies next_to(#[trigger] c@[i], c@[i + 1]) by {
                                assert(c@[i] == c0[i]);
                                if i + 1 < c0.len() {
                                    assert(c@[i + 1] == c0[i + 1]);
                                }
                            }
                            assert forall|i: int| 0 <= i < c@.len() - 1 implies marked(hits.cells(), width as int, #[trigger] c@[i]) by {
                                assert(c@[i] == c0[i]);
                            }
                        }
                        if c.len() > w {
                            break;
                        }
                    },
                }
            }
            if c.len() > 8 {
                proof {
                    assert forall|k: int|
                        0 <= k < out@.len() implies (#[trigger] out@[k])@.len() > 8 && traced(
                            out@[k]@,
                            hits.cells(),
                            width as int,
                            height as int,
                        ) by {
                        assert forall|i: int| 0 <= i < out@[k]@.len() - 1 implies marked(hits.cells(), width as int, #[trigger] out@[k]@[i]) by {
                            assert(marked(base, width as int, out@[k]@[i]));
                            lemma_on_field_index(width as int, height as int, out@[k]@[i]);
                        }
                    }
                }
                let ghost out0 = out@;
                out.push(c);
                proof {
                    assert forall|k: int|
                        0 <= k < out@.len() implies (#[trigger] out@[k])@.len() > 8 && traced(
                            out@[k]@,
                            hits.cells(),
                            width as int,
                            height as int,
                        ) by {
                        if k < out@.len() - 1 {
                            assert(out@[k] == out0[k]);
                        }
                    }
                    assert(out@.last() == c);
                    assert(out@[out@.len() - 1] == c);
                    assert(road_from(out@, start));
                    assert forall|k: int| 0 <= k < o0.len() implies #[trigger] out@[k] == o0[k] by {
                        assert(out@[k] == out0[k]);
                    }
                }
                break;
            } else {
                try_count += 1;
                hits = copy_marks(&prev);
                if try_count < 8 {
                    continue;
                } else {
                    proof {
                        assert(follows(*step, par, c@));
                        assert(short_walk_from(*step, width as int, start));
                    }
                    break;
                }
            }
        }
        proof {
            assert forall|i: int| 0 <= i < starts@.len() implies orig.contains(#[trigger] starts@[i]) by {
                if i < j {
                    assert(starts@[i] == before[i]);
                } else {
                    assert(starts@[i] == before[i + 1]);
                }
                assert(orig.contains(before[i]));
                assert(orig.contains(before[i + 1]));
            }
            assert forall|k: int|
                0 <= k < out@.len() implies (#[trigger] out@[k])@.len() > 0 && orig.contains(out@[k]@[0]) && exists|par: bool|
                    #[trigger] follows(*step, par, out@[k]@) by {
                if k < o0.len() {
                    assert(out@[k] == o0[k]);
                } else {
                    assert(out@[k] == out@.last());
                    assert(orig.contains(before[j]));
                }
            }
            assert forall|i: int|
                0 <= i < orig.len() implies start_tried(*step, width as int, out@, #[trigger] orig[i]) || starts@.contains(
                    orig[i],
                ) by {
                if start_tried(*step, width as int, o0, orig[i]) {
                    lemma_tried_kept(*step, width as int, o0, out@, orig[i]);
                } else {
                    assert(before.contains(orig[i]));
                    let p = choose|p: int| 0 <= p < before.len() && before[p] == orig[i];
                    if p < j {
                        assert(starts@[p] == before[p]);
                    } else if p > j {
                        assert(starts@[p - 1] == before[p]);
                    }
                }
            }
        }
    }
    proof {
        assert forall|i: int| 0 <= i < orig.len() implies start_tried(*step, width as int, out@, #[trigger] orig[i]) by {
            assert(!starts@.contains(orig[i]));
        }
        assert(out@.len() <= orig.len());
    }
    (out, hits)
}

} // verus!
