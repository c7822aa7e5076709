use crate::buildings::{
    lemma_index_in_grid, is_border_cell, labelled_nearest, last_nearest, assign_nearest, dist2, distances_fit, expand_borders_for, in_box, in_grid, isqrt, mask_bounds,
    mask_box, nearest_relabelled, new_voronoi, offsets_fit, sqrt_floor, Voronoi,
};
use crate::buildings::{has_margin, CityCollection};
use crate::vertices::{calculate_vertices, city_vertices, div_toward_zero};
use vstd::prelude::*;

verus! {

/// A lattice laid over the bounding box of a region: its corner, the spacing of its columns
/// and rows, and how far it is turned (a step from 0 to 627).
#[derive(Clone, Copy, Debug, PartialEq, Eq, Structural)]
pub struct Lattice {
    pub min_x: i32,
    pub min_y: i32,
    pub delta_x: i32,
    pub delta_y: i32,
    pub turn: u64,
}

/// `rand::random::<u64>()`: a random number. Nothing is claimed of its value.
#[verifier::external_body]
pub(crate) fn random_u64() -> u64 {
    rand::random::<u64>()
}

/// Every cell of a `width` by `height` grid is near enough to `p` that their squared distance
/// fits an `i32`.
pub open spec fn reaches_grid(width: int, height: int, p: (i32, i32)) -> bool {
    forall|x: int, y: int| in_grid(width, height, x, y) ==> #[trigger] dist2(x, y, p) <= i32::MAX
}

/// `place` can be called on every lattice point, and every place it gives is within reach of
/// every cell of the grid.
pub open spec fn places_within<F: Fn(&Lattice, i32, i32) -> (i32, i32)>(place: F, width: int, height: int) -> bool {
    &&& forall|l: Lattice, i: i32, j: i32| #[trigger] call_requires(place, (&l, i, j))
    &&& forall|l: Lattice, i: i32, j: i32, p: (i32, i32)|
        #[trigger] call_ensures(place, (&l, i, j), p) ==> reaches_grid(width, height, p)
}

/// Every cell of the box `b`, given as (min_x, min_y, max_x, max_y), is near enough to `p`
/// that their squared distance fits an `i32`.
pub open spec fn reaches_box(b: (i32, i32, i32, i32), p: (i32, i32)) -> bool {
    forall|x: int, y: int|
        in_box(b.0 as int, b.1 as int, b.2 as int, b.3 as int, x, y) ==> #[trigger] dist2(x, y, p) <= i32::MAX
}

/// `place` can be called on every lattice point, and every place it gives is within reach of
/// every cell of the box `b`.
pub open spec fn places_within_box<F: Fn(&Lattice, i32, i32) -> (i32, i32)>(place: F, b: (i32, i32, i32, i32)) -> bool {
    &&& forall|l: Lattice, i: i32, j: i32| #[trigger] call_requires(place, (&l, i, j))
    &&& forall|l: Lattice, i: i32, j: i32, p: (i32, i32)|
        #[trigger] call_ensures(place, (&l, i, j), p) ==> reaches_box(b, p)
}

/// Every cell of the bounding box of a region that is not too small to split lies on the grid.
proof fn lemma_box_cells_on_grid(v: Voronoi, mask: u32, b: (i32, i32, i32, i32), sv: int, x: int, y: int)
    requires
        v.wf(),
        sv != 0,
        mask_box(v, mask, b),
        !lattice_small(b, sv),
        in_box(b.0 as int, b.1 as int, b.2 as int, b.3 as int, x, y),
    ensures
        in_grid(v.width as int, v.height as int, x, y),
{
    if exists|x: int, y: int| in_grid(v.width as int, v.height as int, x, y) && #[trigger] v.cell(x, y) == mask {
        let y0 = choose|y: int| in_grid(v.width as int, v.height as int, b.0 as int, y) && #[trigger] v.cell(b.0 as int, y) == mask;
        let x1 = choose|x: int| in_grid(v.width as int, v.height as int, x, b.1 as int) && #[trigger] v.cell(x, b.1 as int) == mask;
        let y2 = choose|y: int| in_grid(v.width as int, v.height as int, b.2 as int, y) && #[trigger] v.cell(b.2 as int, y) == mask;
        let x3 = choose|x: int| in_grid(v.width as int, v.height as int, x, b.3 as int) && #[trigger] v.cell(x, b.3 as int) == mask;
    } else {
        assert(b == (v.width, v.height, 0i32, 0i32));
        let z = 0int;
        assert(z / sv == 0) by (nonlinear_arith)
            requires
                sv != 0,
                z == 0,
        ;
    }
}

/// A placement that reaches every cell of the grid reaches every cell of the bounding box of
/// any region of it that is not too small to split.
proof fn lemma_grid_reach_covers_box<F: Fn(&Lattice, i32, i32) -> (i32, i32)>(place: F, v: Voronoi, mask: u32, sv: int)
    requires
        v.wf(),
        sv != 0,
        places_within(place, v.width as int, v.height as int),
    ensures
        forall|b: (i32, i32, i32, i32)|
            #[trigger] mask_box(v, mask, b) && !lattice_small(b, sv) ==> places_within_box(place, b),
{
    assert forall|b: (i32, i32, i32, i32)| #[trigger] mask_box(v, mask, b) && !lattice_small(b, sv) implies places_within_box(place, b) by {
        assert forall|l: Lattice, i: i32, j: i32, p: (i32, i32)| #[trigger] call_ensures(place, (&l, i, j), p) implies reaches_box(b, p) by {
            assert(reaches_grid(v.width as int, v.height as int, p));
            assert forall|x: int, y: int| in_box(b.0 as int, b.1 as int, b.2 as int, b.3 as int, x, y) implies #[trigger] dist2(x, y, p) <= i32::MAX by {
                lemma_box_cells_on_grid(v, mask, b, sv, x, y);
            }
        }
    }
}

/// The row of the `k`-th lattice point of a lattice with `sv + 2` points per row (rows and
/// columns are numbered from -1).
pub open spec fn lattice_row(sv: int, k: int) -> int {
    k / (sv + 2) - 1
}

/// The column of the `k`-th lattice point.
pub open spec fn lattice_col(sv: int, k: int) -> int {
    k % (sv + 2) - 1
}

/// How many points a lattice with `sv + 2` points per row has: rows and columns run from -1
/// up to `sv`, so there are none when `sv` is below -1.
pub open spec fn lattice_count(sv: int) -> int {
    if sv >= -1 {
        (sv + 2) * (sv + 2)
    } else {
        0
    }
}

/// `points` are the lattice points that `place` gave for lattice `l`, row by row, labelled
/// with consecutive labels from `first`.
pub open spec fn lattice_placed<F: Fn(&Lattice, i32, i32) -> (i32, i32)>(
    place: F,
    l: Lattice,
    sv: int,
    first: u32,
    points: Seq<((i32, i32), u32)>,
) -> bool {
    &&& points.len() == lattice_count(sv)
    &&& forall|k: int|
        0 <= k < points.len() ==> {
            &&& (#[trigger] points[k]).1 == first + k
            &&& call_ensures(place, (&l, lattice_row(sv, k) as i32, lattice_col(sv, k) as i32), points[k].0)
        }
}

/// The grid is unchanged but for the next label to hand out.
pub open spec fn same_cells(a: Voronoi, b: Voronoi) -> bool {
    &&& a.width == b.width
    &&& a.height == b.height
    &&& a.data == b.data
    &&& a.point_set == b.point_set
}

/// Every cell's label is below `bound`: every label in the grid has been handed out.
pub open spec fn labels_below(v: Voronoi, bound: int) -> bool {
    forall|x: int, y: int| in_grid(v.width as int, v.height as int, x, y) ==> #[trigger] v.cell(x, y) < bound
}

/// `after` keeps the label of every cell of `before` not labelled `base`, and gives each cell
/// labelled `base` the label 0, `base`, or a label from `from` up to (not including) `to`.
pub open spec fn split_within(before: Voronoi, after: Voronoi, base: u32, from: int, to: int) -> bool {
    forall|x: int, y: int|
        in_grid(before.width as int, before.height as int, x, y) ==> if before.cell(x, y) != base {
            #[trigger] after.cell(x, y) == before.cell(x, y)
        } else {
            after.cell(x, y) == 0 || after.cell(x, y) == base || from <= after.cell(x, y) < to
        }
}

proof fn lemma_split_compose(a: Voronoi, b: Voronoi, c: Voronoi, base: u32, p: u32, s: int, t1: int, t2: int)
    requires
        a.width == b.width && a.height == b.height,
        split_within(a, b, base, s, t1),
        split_within(b, c, p, t1, t2),
        s <= p,
        s <= t1 <= t2,
        labels_below(a, s),
    ensures
        split_within(a, c, base, s, t2),
{
    assert forall|x: int, y: int| in_grid(a.width as int, a.height as int, x, y) implies if a.cell(x, y) != base {
        #[trigger] c.cell(x, y) == a.cell(x, y)
    } else {
        c.cell(x, y) == 0 || c.cell(x, y) == base || s <= c.cell(x, y) < t2
    } by {
        assert(a.cell(x, y) < s);
        assert(in_grid(b.width as int, b.height as int, x, y));
        if b.cell(x, y) != p {
            assert(c.cell(x, y) == b.cell(x, y));
        }
    }
}

proof fn lemma_split_keeps_labels_below(b: Voronoi, c: Voronoi, p: u32, t1: int, t2: int)
    requires
        b.width == c.width && b.height == c.height,
        split_within(b, c, p, t1, t2),
        labels_below(b, t1),
        t1 <= t2,
    ensures
        labels_below(c, t2),
{
    assert forall|x: int, y: int| in_grid(c.width as int, c.height as int, x, y) implies #[trigger] c.cell(x, y) < t2 by {
        assert(b.cell(x, y) < t1);
        if b.cell(x, y) != p {
            assert(c.cell(x, y) == b.cell(x, y));
        }
    }
}

/// Lays out the lattice, giving each of its `lattice_count(sv)` points a fresh label.
fn lattice_points<F: Fn(&Lattice, i32, i32) -> (i32, i32)>(
    voronoi: &mut Voronoi,
    l: &Lattice,
    sv: i32,
    place: &F,
) -> (r: Vec<((i32, i32), u32)>)
    requires
        old(voronoi).next_idx + lattice_count(sv as int) <= u32::MAX,
        forall|l: Lattice, i: i32, j: i32| #[trigger] call_requires(*place, (&l, i, j)),
    ensures
        same_cells(*old(voronoi), *final(voronoi)),
        final(voronoi).next_idx == old(voronoi).next_idx + lattice_count(sv as int),
        lattice_placed(*place, *l, sv as int, old(voronoi).next_idx, r@),
{
    let ghost first = voronoi.next_idx;
    let mut points: Vec<((i32, i32), u32)> = Vec::new();
    if sv < -1 {
        return points;
    }
    proof {
        assert((sv + 2) * (sv + 2) <= u32::MAX);
        assert(sv + 2 <= 65536) by (nonlinear_arith)
            requires
                (sv + 2) * (sv + 2) <= u32::MAX,
                sv + 2 >= 1,
        ;
    }
    let mut i: i32 = -1;
    while i <= sv
        invariant
            -1 <= sv <= 65534,
            -1 <= i <= sv + 1,
            forall|l: Lattice, i: i32, j: i32| #[trigger] call_requires(*place, (&l, i, j)),
            same_cells(*old(voronoi), *voronoi),
            first == old(voronoi).next_idx,
            first + (sv + 2) * (sv + 2) <= u32::MAX,
            points@.len() == (i + 1) * (sv + 2),
            voronoi.next_idx == first + points@.len(),
            forall|k: int|
                0 <= k < points@.len() ==> {
                    &&& (#[trigger] points@[k]).1 == first + k
                    &&& call_ensures(*place, (l, lattice_row(sv as int, k) as i32, lattice_col(sv as int, k) as i32), points@[k].0)
                },
        decreases sv + 1 - i,
    {
        let mut j: i32 = -1;
        while j <= sv
            invariant
                -1 <= sv <= 65534,
                -1 <= i <= sv,
                -1 <= j <= sv + 1,
                forall|l: Lattice, i: i32, j: i32| #[trigger] call_requires(*place, (&l, i, j)),
                same_cells(*old(voronoi), *voronoi),
                first == old(voronoi).next_idx,
                first + (sv + 2) * (sv + 2) <= u32::MAX,
                points@.len() == (i + 1) * (sv + 2) + (j + 1),
                voronoi.next_idx == first + points@.len(),
                forall|k: int|
                    0 <= k < points@.len() ==> {
                        &&& (#[trigger] points@[k]).1 == first + k
                        &&& call_ensures(*place, (l, lattice_row(sv as int, k) as i32, lattice_col(sv as int, k) as i32), points@[k].0)
                    },
            decreases sv + 1 - j,
        {
            let ghost k = points@.len() as int;
            proof {
                assert((i + 1) * (sv + 2) + (j + 1) < (sv + 2) * (sv + 2)) by (nonlinear_arith)
                    requires
                        -1 <= i <= sv,
                        -1 <= j <= sv,
                        -1 <= sv,
                ;
                assert(lattice_row(sv as int, k) == i && lattice_col(sv as int, k) == j) by (nonlinear_arith)
                    requires
                        k == (i + 1) * (sv + 2) + (j + 1),
                        -1 <= i <= sv,
                        -1 <= j <= sv,
                        -1 <= sv,
                ;
            }
            let p = place(l, i, j);
            let label = voronoi.alloc_point();
            points.push((p, label));
            j = j + 1;
        }
        assert((i + 1) * (sv + 2) + (sv + 2) == (i + 2) * (sv + 2)) by (nonlinear_arith);
        i = i + 1;
    }
    points
}

/// `a / b` rounded toward zero, as `/` on `i32` gives it.
fn div_trunc(a: i32, b: i32) -> (r: i32)
    requires
        b != 0,
        a > i32::MIN,
    ensures
        r == div_toward_zero(a as int, b as int),
{
    if b > 0 {
        a / b
    } else if b == i32::MIN {
        proof {
            let ai = a as int;
            let bi = b as int;
            if ai >= 0 {
                assert(ai / bi == 0) by (nonlinear_arith)
                    requires
                        0 <= ai < -bi,
                ;
            } else {
                assert((-ai) / bi == 0) by (nonlinear_arith)
                    requires
                        0 <= -ai < -bi,
                ;
            }
        }
        0
    } else {
        let q = a / (-b);
        proof {
            let ai = a as int;
            let bi = b as int;
            let c = if ai >= 0 { ai } else { -ai };
            let p = c / (-bi);
            vstd::arithmetic::div_mod::lemma_fundamental_div_mod(c, -bi);
            assert(c / bi == -p) by (nonlinear_arith)
                requires
                    c == (-bi) * p + c % (-bi),
                    0 <= c % (-bi) < -bi,
                    bi < 0,
            ;
        }
        -q
    }
}

/// Dividing the bounding box `b` by `sv` spans 2 cells or fewer along some axis.
pub open spec fn lattice_small(b: (i32, i32, i32, i32), sv: int) -> bool {
    div_toward_zero(b.2 - b.0, sv) <= 2 || div_toward_zero(b.3 - b.1, sv) <= 2
}

/// The lattice laid over the bounding box `b` with `sv` steps per side, turned by `turn`.
pub open spec fn box_lattice(b: (i32, i32, i32, i32), sv: int, turn: u64) -> Lattice {
    Lattice {
        min_x: b.0,
        min_y: b.1,
        delta_x: div_toward_zero(b.2 - b.0, sv) as i32,
        delta_y: div_toward_zero(b.3 - b.1, sv) as i32,
        turn,
    }
}

/// `after` is `before` with the region labelled `mask` split once with `sv` steps: when the
/// region's bounding box is small for `sv`, nothing changed; otherwise `lattice_count(sv)`
/// fresh labels were handed out to the points that `place` gave for a lattice over the box,
/// turned by some step below 628, and each cell of the region took the label of its nearest
/// point.
pub open spec fn subdivided<F: Fn(&Lattice, i32, i32) -> (i32, i32)>(
    place: F,
    before: Voronoi,
    after: Voronoi,
    mask: u32,
    sv: int,
) -> bool {
    exists|b: (i32, i32, i32, i32)|
        #![trigger mask_box(before, mask, b)]
        mask_box(before, mask, b) && if lattice_small(b, sv) {
            after == before
        } else {
            &&& after.width == before.width
            &&& after.height == before.height
            &&& after.point_set == before.point_set
            &&& after.next_idx == before.next_idx + lattice_count(sv)
            &&& exists|turn: u64, points: Seq<((i32, i32), u32)>|
                #![trigger lattice_placed(place, box_lattice(b, sv, turn), sv, before.next_idx, points)]
                turn < 628 && lattice_placed(place, box_lattice(b, sv, turn), sv, before.next_idx, points)
                    && nearest_relabelled(before, after, mask, b.0 as int, b.1 as int, b.2 as int, b.3 as int, points)
        }
}

/// Splits the region labelled `mask` into new regions. A lattice of `sv + 2` by `sv + 2`
/// points (none when `sv` is below -1), turned by a random step, is laid over the region's bounding box; each point gets a
/// fresh label, and each cell of the region takes the label of its nearest point (the last of
/// them when several are equally near). When the bounding box, divided by `sv`, spans 2 cells
/// or fewer along either axis, nothing is done. Returns the new labels.
pub fn masked_subdivide<F: Fn(&Lattice, i32, i32) -> (i32, i32)>(
    mask: u32,
    voronoi: &mut Voronoi,
    sv: i32,
    place: &F,
) -> (r: Vec<u32>)
    requires
        old(voronoi).wf(),
        sv != 0,
        forall|b: (i32, i32, i32, i32)|
            #[trigger] mask_box(*old(voronoi), mask, b) && !lattice_small(b, sv as int) ==> old(voronoi).next_idx
                + lattice_count(sv as int) <= u32::MAX && places_within_box(*place, b),
    ensures
        final(voronoi).wf(),
        final(voronoi).width == old(voronoi).width,
        final(voronoi).height == old(voronoi).height,
        final(voronoi).point_set == old(voronoi).point_set,
        old(voronoi).next_idx <= final(voronoi).next_idx,
        split_within(*old(voronoi), *final(voronoi), mask, old(voronoi).next_idx as int, final(voronoi).next_idx as int),
        subdivided(*place, *old(voronoi), *final(voronoi), mask, sv as int),
        r@.len() == final(voronoi).next_idx - old(voronoi).next_idx,
        forall|k: int| 0 <= k < r@.len() ==> #[trigger] r@[k] == old(voronoi).next_idx + k,
{
    let b = mask_bounds(voronoi, mask);
    let (min_x, min_y, max_x, max_y) = b;
    let mut list: Vec<u32> = Vec::new();
    let delta_x = div_trunc(max_x - min_x, sv);
    let delta_y = div_trunc(max_y - min_y, sv);
    if delta_x <= 2 || delta_y <= 2 {
        proof {
            lemma_split_refl(*voronoi, mask, voronoi.next_idx as int);
        }
        return list;
    }
    let turn = random_u64() % 628;
    let ghost before = *voronoi;
    let list = split_region(mask, voronoi, b, sv, turn, place);
    proof {
        assert(subdivided(*place, before, *voronoi, mask, sv as int)) by {
            let points = choose|points: Seq<((i32, i32), u32)>|
                lattice_placed(*place, box_lattice(b, sv as int, turn), sv as int, before.next_idx, points)
                    && nearest_relabelled(before, *voronoi, mask, b.0 as int, b.1 as int, b.2 as int, b.3 as int, points);
            assert(lattice_placed(*place, box_lattice(b, sv as int, turn), sv as int, before.next_idx, points));
        }
    }
    list
}

/// Splits the region labelled `mask`, whose bounding box is `b`, with `sv` lattice steps
/// per side and the lattice turned by `turn`: each of the `lattice_count(sv)` lattice points
/// that `place` gives gets a fresh label, and each cell of the region takes the label of its
/// nearest point (the last of them when several are equally near). Returns the new labels.
pub fn split_region<F: Fn(&Lattice, i32, i32) -> (i32, i32)>(
    mask: u32,
    voronoi: &mut Voronoi,
    b: (i32, i32, i32, i32),
    sv: i32,
    turn: u64,
    place: &F,
) -> (r: Vec<u32>)
    requires
        old(voronoi).wf(),
        sv != 0,
        mask_box(*old(voronoi), mask, b),
        !lattice_small(b, sv as int),
        old(voronoi).next_idx + lattice_count(sv as int) <= u32::MAX,
        places_within_box(*place, b),
    ensures
        final(voronoi).wf(),
        final(voronoi).width == old(voronoi).width,
        final(voronoi).height == old(voronoi).height,
        final(voronoi).point_set == old(voronoi).point_set,
        final(voronoi).next_idx == old(voronoi).next_idx + lattice_count(sv as int),
        split_within(*old(voronoi), *final(voronoi), mask, old(voronoi).next_idx as int, final(voronoi).next_idx as int),
        exists|points: Seq<((i32, i32), u32)>|
            #[trigger] lattice_placed(*place, box_lattice(b, sv as int, turn), sv as int, old(voronoi).next_idx, points)
                && nearest_relabelled(*old(voronoi), *final(voronoi), mask, b.0 as int, b.1 as int, b.2 as int, b.3 as int, points),
        r@.len() == final(voronoi).next_idx - old(voronoi).next_idx,
        forall|k: int| 0 <= k < r@.len() ==> #[trigger] r@[k] == old(voronoi).next_idx + k,
{
    let (min_x, min_y, max_x, max_y) = b;
    let delta_x = div_trunc(max_x - min_x, sv);
    let delta_y = div_trunc(max_y - min_y, sv);
    let mut list: Vec<u32> = Vec::new();
    proof {
        if exists|x: int, y: int|
            in_grid(voronoi.width as int, voronoi.height as int, x, y) && #[trigger] voronoi.cell(x, y) == mask {
            let (wx, wy) = choose|x: int, y: int|
                in_grid(voronoi.width as int, voronoi.height as int, x, y) && #[trigger] voronoi.cell(x, y) == mask;
            assert(voronoi.cell(wx, wy) == mask);
        } else {
            assert(b == (voronoi.width, voronoi.height, 0i32, 0i32));
            let z = 0int;
            assert(z / (sv as int) == 0) by (nonlinear_arith)
                requires
                    sv != 0,
                    z == 0,
            ;
            assert(voronoi.width > 0 && voronoi.height > 0);
        }
    }
    let l = Lattice { min_x, min_y, delta_x, delta_y, turn };
    let ghost before = *voronoi;
    let points = lattice_points(voronoi, &l, sv, place);
    proof {
        assert forall|k: int, x: int, y: int|
            0 <= k < points@.len() && in_box(min_x as int, min_y as int, max_x as int, max_y as int, x, y)
                implies #[trigger] dist2(x, y, points@[k].0) <= i32::MAX by {
            let p = points@[k].0;
            assert(call_ensures(*place, (&l, lattice_row(sv as int, k) as i32, lattice_col(sv as int, k) as i32), p));
            assert(reaches_box(b, p));
        }
    }
    let mut k: usize = 0;
    while k < points.len()
        invariant
            k <= points@.len(),
            list@.len() == k,
            forall|q: int| 0 <= q < k ==> #[trigger] list@[q] == points@[q].1,
        decreases points@.len() - k,
    {
        list.push(points[k].1);
        k = k + 1;
    }
    assign_nearest(voronoi, mask, min_x, min_y, max_x, max_y, points.as_slice());
    proof {
        assert(nearest_relabelled(before, *voronoi, mask, min_x as int, min_y as int, max_x as int, max_y as int, points@));
        assert(l == box_lattice(b, sv as int, turn));
        assert(lattice_placed(*place, box_lattice(b, sv as int, turn), sv as int, before.next_idx, points@));
        assert forall|x: int, y: int| in_grid(before.width as int, before.height as int, x, y) implies if before.cell(x, y) != mask {
            #[trigger] voronoi.cell(x, y) == before.cell(x, y)
        } else {
            voronoi.cell(x, y) == 0 || voronoi.cell(x, y) == mask || before.next_idx <= voronoi.cell(x, y) < voronoi.next_idx
        } by {
            if before.cell(x, y) == mask && in_box(min_x as int, min_y as int, max_x as int, max_y as int, x, y) {
                assert(labelled_nearest(points@, x, y, voronoi.cell(x, y)));
                if points@.len() > 0 {
                    let k = choose|k: int| last_nearest(points@, points@.len() as int, x, y, k) && voronoi.cell(x, y) == points@[k].1;
                    assert(points@[k].1 == before.next_idx + k);
                }
            }
        }
    }
    list
}

proof fn lemma_split_refl(v: Voronoi, base: u32, t: int)
    ensures
        split_within(v, v, base, t, t),
{
}

/// The lattice steps `subdivide_voronoi` uses on a grid of `cells` cells: about the square
/// root of the cell count over 180 (at most 300) for the first split, then 4 while `depth` is
/// above 0 and 2 at the last level.
pub open spec fn split_spacing(first: bool, depth: int, cells: int) -> int {
    if first {
        let t = (sqrt_floor(cells as nat) / 180) as int;
        if t > 300 {
            300
        } else {
            t
        }
    } else if depth > 0 {
        4
    } else {
        2
    }
}

/// `after` keeps the label of every cell of `before` whose label is not in `lo..hi`, and
/// gives each cell whose label is in `lo..hi` the label 0, its own label, or a label from
/// `hi` up to (not including) `to`.
pub open spec fn split_range(before: Voronoi, after: Voronoi, lo: int, hi: int, to: int) -> bool {
    forall|x: int, y: int|
        in_grid(before.width as int, before.height as int, x, y) ==> if !(lo <= before.cell(x, y) < hi) {
            #[trigger] after.cell(x, y) == before.cell(x, y)
        } else {
            after.cell(x, y) == 0 || after.cell(x, y) == before.cell(x, y) || hi <= after.cell(x, y) < to
        }
}

proof fn lemma_split_range_step(mid: Voronoi, cur: Voronoi, next: Voronoi, lo: int, hi: int, p: u32, from: int, to: int)
    requires
        mid.width == cur.width && mid.height == cur.height,
        split_range(mid, cur, lo, hi, from),
        lo <= p < hi,
        split_within(cur, next, p, from, to),
        hi <= from <= to,
    ensures
        split_range(mid, next, lo, hi, to),
{
    assert forall|x: int, y: int| in_grid(mid.width as int, mid.height as int, x, y) implies if !(lo <= mid.cell(x, y) < hi) {
        #[trigger] next.cell(x, y) == mid.cell(x, y)
    } else {
        next.cell(x, y) == 0 || next.cell(x, y) == mid.cell(x, y) || hi <= next.cell(x, y) < to
    } by {
        assert(in_grid(cur.width as int, cur.height as int, x, y));
        assert(cur.cell(x, y) == mid.cell(x, y) || cur.cell(x, y) == 0 || hi <= cur.cell(x, y) < from);
        if cur.cell(x, y) != p {
            assert(next.cell(x, y) == cur.cell(x, y));
        }
    }
}

/// `after` is `before` with the borders of the region labelled `p` cleared, as
/// `expand_borders_for` clears them with roads one cell wide: each cell of `p` that touches
/// another nonzero region is set to 0, and nothing else changes.
pub open spec fn borders_cleared(before: Voronoi, after: Voronoi, p: u32) -> bool {
    &&& after.wf()
    &&& after.width == before.width
    &&& after.height == before.height
    &&& after.next_idx == before.next_idx
    &&& after.point_set == before.point_set
    &&& forall|x: int, y: int|
        in_grid(before.width as int, before.height as int, x, y) ==> #[trigger] after.cell(x, y) == if is_border_cell(
            &before,
            x,
            y,
            p,
            1,
        ) {
            0
        } else {
            before.cell(x, y)
        }
}

/// One way `subdivide_voronoi` can have gone: `mid` is the grid after the first split;
/// `cleared` the grids as the borders of each new region are cleared in turn (from `mid` on);
/// `split` the grids as each new region is split again in turn (from the last of `cleared`
/// on); and `children` how each of those further splits went.
pub struct SplitTrace {
    pub mid: Voronoi,
    pub cleared: Seq<Voronoi>,
    pub split: Seq<Voronoi>,
    pub children: Seq<SplitTrace>,
}

/// `t` is a way of splitting the region `base` of `before` `depth` levels deep that ends at
/// `after`: one split, then, when `depth` is above 0, roads around each new region and a
/// further split of each with `depth - 1`.
pub open spec fn trace_valid<F: Fn(&Lattice, i32, i32) -> (i32, i32)>(
    place: F,
    before: Voronoi,
    after: Voronoi,
    base: u32,
    depth: int,
    first: bool,
    t: SplitTrace,
) -> bool
    decreases t, 1int, 0int,
{
    let start = before.next_idx as int;
    let m = t.mid.next_idx - start;
    &&& subdivided(place, before, t.mid, base, split_spacing(first, depth, before.width * before.height))
    &&& if depth <= 0 {
        after == t.mid
    } else {
        &&& m >= 0
        &&& t.cleared.len() == m + 1
        &&& t.cleared[0] == t.mid
        &&& forall|k: int| 0 <= k < m ==> #[trigger] borders_cleared(t.cleared[k], t.cleared[k + 1], (start + k) as u32)
        &&& t.split.len() == m + 1
        &&& t.split[0] == t.cleared[m]
        &&& t.children.len() == m
        &&& children_valid(place, t, start, m, depth)
        &&& after == t.split[m]
    }
}

/// The first `k` further splits recorded in `t` are valid: the new region labelled
/// `start + j` was split with `depth - 1` from `t.split[j]` to `t.split[j + 1]` as
/// `t.children[j]` records.
pub open spec fn children_valid<F: Fn(&Lattice, i32, i32) -> (i32, i32)>(
    place: F,
    t: SplitTrace,
    start: int,
    k: int,
    depth: int,
) -> bool
    decreases t, 0int, k,
{
    if k <= 0 || k > t.children.len() {
        true
    } else {
        children_valid(place, t, start, k - 1, depth) && trace_valid(
            place,
            t.split[k - 1],
            t.split[k],
            (start + k - 1) as u32,
            depth - 1,
            false,
            t.children[k - 1],
        )
    }
}

/// `after` is what `subdivide_voronoi` can make of `before` when splitting the region `base`
/// `depth` levels deep: one split, then, level by level, roads between the new regions and a
/// further split of each, whatever the random turns were.
pub open spec fn nested_split<F: Fn(&Lattice, i32, i32) -> (i32, i32)>(
    place: F,
    before: Voronoi,
    after: Voronoi,
    base: u32,
    depth: int,
    first: bool,
) -> bool {
    exists|t: SplitTrace| #[trigger] trace_valid(place, before, after, base, depth, first, t)
}

proof fn lemma_children_prefix<F: Fn(&Lattice, i32, i32) -> (i32, i32)>(
    place: F,
    a: SplitTrace,
    b: SplitTrace,
    start: int,
    k: int,
    depth: int,
)
    requires
        0 <= k <= a.children.len(),
        k <= b.children.len(),
        k < a.split.len(),
        k < b.split.len(),
        forall|j: int| 0 <= j <= k ==> a.split[j] == b.split[j],
        forall|j: int| 0 <= j < k ==> a.children[j] == b.children[j],
    ensures
        children_valid(place, a, start, k, depth) == children_valid(place, b, start, k, depth),
    decreases k,
{
    if k > 0 {
        lemma_children_prefix(place, a, b, start, k - 1, depth);
    }
}

/// An upper bound on the labels `subdivide_voronoi` hands out.
pub open spec fn label_budget(first: bool, depth: int) -> int
    decreases depth,
{
    let per_level: int = if first {
        302int * 302int
    } else if depth > 0 {
        36int
    } else {
        16int
    };
    if depth > 0 {
        per_level * (1 + label_budget(false, depth - 1))
    } else {
        per_level
    }
}

proof fn lemma_label_budget(first: bool, depth: int)
    ensures
        label_budget(first, depth) >= 16,
    decreases depth,
{
    if depth > 0 {
        lemma_label_budget(false, depth - 1);
        let b = label_budget(false, depth - 1);
        assert(36 * (1 + b) >= 16 && 302 * 302 * (1 + b) >= 16) by (nonlinear_arith)
            requires
                b >= 16,
        ;
    }
}

/// Splits the region labelled `base`, and then, while `depth` is above 0, clears the borders
/// between the new regions and splits each of them again with `depth - 1`. The first split
/// (`first`) uses a lattice of about the square root of the cell count over 180 points per
/// side (at most 300); further ones use 4 while `depth` is above 0 and 2 at the last level.
pub fn subdivide_voronoi<F: Fn(&Lattice, i32, i32) -> (i32, i32)>(
    voronoi: &mut Voronoi,
    base: u32,
    depth: i32,
    first: bool,
    place: &F,
)
    requires
        old(voronoi).wf(),
        offsets_fit(old(voronoi), 1),
        first ==> sqrt_floor((old(voronoi).width * old(voronoi).height) as nat) >= 180,
        old(voronoi).next_idx + label_budget(first, depth as int) <= u32::MAX,
        places_within(*place, old(voronoi).width as int, old(voronoi).height as int),
        labels_below(*old(voronoi), old(voronoi).next_idx as int),
    ensures
        final(voronoi).wf(),
        final(voronoi).width == old(voronoi).width,
        final(voronoi).height == old(voronoi).height,
        final(voronoi).point_set == old(voronoi).point_set,
        old(voronoi).next_idx <= final(voronoi).next_idx <= old(voronoi).next_idx + label_budget(
            first,
            depth as int,
        ),
        split_within(*old(voronoi), *final(voronoi), base, old(voronoi).next_idx as int, final(voronoi).next_idx as int),
        labels_below(*final(voronoi), final(voronoi).next_idx as int),
        exists|mid: Voronoi|
            #![trigger subdivided(*place, *old(voronoi), mid, base, split_spacing(first, depth as int, old(voronoi).width * old(voronoi).height))]
            subdivided(*place, *old(voronoi), mid, base, split_spacing(first, depth as int, old(voronoi).width * old(voronoi).height))
                && mid.next_idx <= final(voronoi).next_idx && if depth > 0 {
                split_range(mid, *final(voronoi), old(voronoi).next_idx as int, mid.next_idx as int, final(voronoi).next_idx as int)
            } else {
                *final(voronoi) == mid
            },
        nested_split(*place, *old(voronoi), *final(voronoi), base, depth as int, first),
    decreases depth,
{
    let sv = if first {
        let t = isqrt(voronoi.width * voronoi.height) / 180;
        if t > 300 {
            300
        } else {
            t
        }
    } else if depth > 0 {
        4
    } else {
        2
    };
    let ghost start = voronoi.next_idx;
    proof {
        lemma_label_budget(false, depth - 1);
        let b = label_budget(false, depth - 1);
        if depth > 0 {
            assert((sv + 2) * (sv + 2) <= label_budget(first, depth as int)) by (nonlinear_arith)
                requires
                    0 < sv <= 300,
                    label_budget(first, depth as int) == (if first {
                        302 * 302
                    } else {
                        36
                    }) * (1 + b),
                    !first ==> sv == 4,
                    b >= 16,
            ;
        } else {
            assert((sv + 2) * (sv + 2) <= label_budget(first, depth as int)) by (nonlinear_arith)
                requires
                    0 < sv <= 300,
                    label_budget(first, depth as int) == (if first {
                        302 * 302
                    } else {
                        16
                    }),
                    !first ==> sv == 2,
            ;
        }
    }
    assert(sv == split_spacing(first, depth as int, old(voronoi).width * old(voronoi).height));
    proof {
        lemma_grid_reach_covers_box(*place, *voronoi, base, sv as int);
    }
    let points = masked_subdivide(base, voronoi, sv, place);
    let ghost mid = *voronoi;
    let ghost mut cleared: Seq<Voronoi> = seq![mid];
    let ghost mut split: Seq<Voronoi> = seq![mid];
    let ghost mut children: Seq<SplitTrace> = Seq::empty();
    proof {
        lemma_split_keeps_labels_below(*old(voronoi), *voronoi, base, start as int, voronoi.next_idx as int);
        assert(split_range(mid, mid, start as int, mid.next_idx as int, mid.next_idx as int));
    }
    if depth > 0 {
        let mut k: usize = 0;
        while k < points.len()
            invariant
                voronoi.wf(),
                voronoi.width == old(voronoi).width,
                voronoi.height == old(voronoi).height,
                voronoi.point_set == old(voronoi).point_set,
                voronoi.next_idx == start + (sv + 2) * (sv + 2) || points@.len() == 0,
                voronoi.next_idx >= start,
                voronoi.next_idx <= start + (sv + 2) * (sv + 2),
                offsets_fit(old(voronoi), 1),
                k <= points@.len(),
                start == old(voronoi).next_idx,
                labels_below(*old(voronoi), start as int),
                forall|q: int| 0 <= q < points@.len() ==> #[trigger] points@[q] == start + q,
                split_within(*old(voronoi), *voronoi, base, start as int, voronoi.next_idx as int),
                labels_below(*voronoi, voronoi.next_idx as int),
                mid.width == old(voronoi).width && mid.height == old(voronoi).height,
                points@.len() == mid.next_idx - start,
                mid.next_idx == voronoi.next_idx,
                split_range(mid, *voronoi, start as int, mid.next_idx as int, voronoi.next_idx as int),
                cleared.len() == k + 1,
                cleared[0] == mid,
                cleared.last() == *voronoi,
                forall|j: int| 0 <= j < k ==> #[trigger] borders_cleared(cleared[j], cleared[j + 1], (start + j) as u32),
            decreases points@.len() - k,
        {
            let ghost cur = *voronoi;
            let p = points[k];
            expand_borders_for(voronoi, p, 1);
            proof {
                let c0 = cleared;
                cleared = cleared.push(*voronoi);
                assert(cleared[k as int] == cur);
                assert(borders_cleared(cleared[k as int], cleared[k + 1], (start + k) as u32));
                assert forall|j: int| 0 <= j < k + 1 implies #[trigger] borders_cleared(cleared[j], cleared[j + 1], (start + j) as u32) by {
                    if j < k {
                        assert(cleared[j] == c0[j] && cleared[j + 1] == c0[j + 1]);
                    }
                }
            }
            proof {
                assert(split_within(cur, *voronoi, p, voronoi.next_idx as int, voronoi.next_idx as int)) by {
                    assert forall|x: int, y: int| in_grid(cur.width as int, cur.height as int, x, y) implies if cur.cell(x, y) != p {
                        #[trigger] voronoi.cell(x, y) == cur.cell(x, y)
                    } else {
                        voronoi.cell(x, y) == 0 || voronoi.cell(x, y) == p || voronoi.next_idx <= voronoi.cell(x, y) < voronoi.next_idx
                    } by {
                    }
                }
                lemma_split_compose(*old(voronoi), cur, *voronoi, base, p, start as int, voronoi.next_idx as int, voronoi.next_idx as int);
                lemma_split_keeps_labels_below(cur, *voronoi, p, voronoi.next_idx as int, voronoi.next_idx as int);
                lemma_split_range_step(mid, cur, *voronoi, start as int, mid.next_idx as int, p, voronoi.next_idx as int, voronoi.next_idx as int);
            }
            k = k + 1;
        }
        let ghost b = label_budget(false, depth - 1);
        let ghost after_split = voronoi.next_idx;
        proof {
            split = seq![*voronoi];
        }
        proof {
            lemma_label_budget(false, depth - 1);
            assert((sv + 2) * (sv + 2) + (sv + 2) * (sv + 2) * b <= label_budget(first, depth as int)) by (nonlinear_arith)
                requires
                    0 < sv <= 300,
                    label_budget(first, depth as int) == (if first {
                        302 * 302
                    } else {
                        36
                    }) * (1 + b),
                    !first ==> sv == 4,
                    b >= 16,
            ;
        }
        let mut k: usize = 0;
        while k < points.len()
            invariant
                voronoi.wf(),
                voronoi.width == old(voronoi).width,
                voronoi.height == old(voronoi).height,
                voronoi.point_set == old(voronoi).point_set,
                offsets_fit(old(voronoi), 1),
                places_within(*place, old(voronoi).width as int, old(voronoi).height as int),
                b == label_budget(false, depth - 1),
                b >= 16,
                depth > 0,
                start <= after_split <= start + (sv + 2) * (sv + 2),
                points@.len() == 0 || points@.len() == (sv + 2) * (sv + 2),
                k <= points@.len(),
                after_split <= voronoi.next_idx <= after_split + k * b,
                start + (sv + 2) * (sv + 2) + (sv + 2) * (sv + 2) * b <= start + label_budget(first, depth as int),
                start + label_budget(first, depth as int) <= u32::MAX,
                start == old(voronoi).next_idx,
                labels_below(*old(voronoi), start as int),
                forall|q: int| 0 <= q < points@.len() ==> #[trigger] points@[q] == start + q,
                split_within(*old(voronoi), *voronoi, base, start as int, voronoi.next_idx as int),
                labels_below(*voronoi, voronoi.next_idx as int),
                mid.width == old(voronoi).width && mid.height == old(voronoi).height,
                points@.len() == mid.next_idx - start,
                mid.next_idx <= voronoi.next_idx,
                split_range(mid, *voronoi, start as int, mid.next_idx as int, voronoi.next_idx as int),
                cleared.len() == points@.len() + 1,
                cleared[0] == mid,
                forall|j: int| 0 <= j < points@.len() ==> #[trigger] borders_cleared(cleared[j], cleared[j + 1], (start + j) as u32),
                split.len() == k + 1,
                split[0] == cleared.last(),
                split.last() == *voronoi,
                children.len() == k,
                children_valid(
                    *place,
                    (SplitTrace { mid, cleared, split, children }),
                    start as int,
                    k as int,
                    depth as int,
                ),
            decreases points@.len() - k,
        {
            proof {
                assert(k * b + b <= (sv + 2) * (sv + 2) * b) by (nonlinear_arith)
                    requires
                        k < (sv + 2) * (sv + 2),
                        b >= 0,
                ;
            }
            let ghost cur = *voronoi;
            let p = points[k];
            subdivide_voronoi(voronoi, p, depth - 1, false, place);
            proof {
                let t0 = SplitTrace { mid, cleared, split, children };
                assert(p == (start + k) as u32);
                assert(nested_split(*place, cur, *voronoi, p, depth - 1, false));
                let tk = choose|t: SplitTrace| #[trigger] trace_valid(*place, cur, *voronoi, p, depth - 1, false, t);
                split = split.push(*voronoi);
                children = children.push(tk);
                let t1 = SplitTrace { mid, cleared, split, children };
                assert(split[k as int] == cur);
                assert(children[k as int] == tk);
                lemma_children_prefix(*place, t0, t1, start as int, k as int, depth as int);
                assert(children_valid(*place, t1, start as int, k + 1, depth as int));
                lemma_split_compose(*old(voronoi), cur, *voronoi, base, p, start as int, cur.next_idx as int, voronoi.next_idx as int);
                lemma_split_range_step(mid, cur, *voronoi, start as int, mid.next_idx as int, p, cur.next_idx as int, voronoi.next_idx as int);
            }
            assert((k + 1) * b == k * b + b) by (nonlinear_arith);
            k = k + 1;
        }
        proof {
            assert(k * b <= (sv + 2) * (sv + 2) * b) by (nonlinear_arith)
                requires
                    k <= (sv + 2) * (sv + 2),
                    b >= 0,
            ;
        }
    }
    proof {
        let t = SplitTrace { mid, cleared, split, children };
        assert(subdivided(*place, *old(voronoi), mid, base, split_spacing(first, depth as int, old(voronoi).width * old(voronoi).height)));
        if depth > 0 {
            assert(mid.next_idx - start == points@.len());
            assert(split[0] == cleared[points@.len() as int]);
            assert(*voronoi == split[points@.len() as int]);
        }
        assert(trace_valid(*place, *old(voronoi), *voronoi, base, depth as int, first, t));
    }
}

/// A `width` by `height` grid, all of it first one region, split twice over: the whole grid
/// by a lattice of about the square root of its cell count over 180 points per side, each of
/// those regions by a 6 by 6 lattice, and each of those by a 4 by 4 lattice, with the borders
/// between regions cleared after each of the first two splits.
pub fn generate_voronoi<F: Fn(&Lattice, i32, i32) -> (i32, i32)>(width: i32, height: i32, place: &F) -> (r:
    Voronoi)
    requires
        width >= 0,
        height >= 0,
        width * height <= i32::MAX,
        width < i32::MAX,
        height < i32::MAX,
        sqrt_floor((width * height) as nat) >= 180,
        places_within(*place, width as int, height as int),
    ensures
        r.wf(),
        r.width == width,
        r.height == height,
        1 <= r.next_idx <= 1 + label_budget(true, 2),
        labels_below(r, r.next_idx as int),
        r.point_set@ == Seq::<(i32, i32)>::empty(),
        div_toward_zero(width - 1, split_spacing(true, 2, width * height)) > 2 && div_toward_zero(
            height - 1,
            split_spacing(true, 2, width * height),
        ) > 2 ==> r.next_idx >= 1 + lattice_count(split_spacing(true, 2, width * height)),
        exists|v0: Voronoi| fresh_grid(v0, width as int, height as int) && #[trigger] nested_split(*place, v0, r, 0, 2, true),
{
    let mut out = new_voronoi(width, height);
    proof {
        assert(label_budget(false, 0) == 16);
        assert(label_budget(false, 1) == 36 * 17);
        assert(label_budget(true, 2) == 302 * 302 * (1 + 36 * 17));
    }
    proof {
        assert forall|x: int, y: int| in_grid(out.width as int, out.height as int, x, y) implies #[trigger] out.cell(x, y) < out.next_idx by {
            lemma_index_in_grid(out.width as int, out.height as int, x, y);
        }
    }
    let ghost fresh = out;
    subdivide_voronoi(&mut out, 0, 2, true, place);
    proof {
        assert(fresh_grid(fresh, width as int, height as int));
        let sv = split_spacing(true, 2, width * height);
        if div_toward_zero(width - 1, sv) > 2 && div_toward_zero(height - 1, sv) > 2 {
            assert(sv >= 1);
            if width == 0 || height == 0 {
                let one = 1int;
                assert(one / sv >= 0) by (nonlinear_arith)
                    requires
                        sv >= 1,
                        one == 1,
                ;
            }
            let mid = choose|mid: Voronoi| subdivided(*place, fresh, mid, 0, sv) && mid.next_idx <= out.next_idx;
            let b = choose|b: (i32, i32, i32, i32)|
                mask_box(fresh, 0, b) && if lattice_small(b, sv) {
                    mid == fresh
                } else {
                    &&& mid.width == fresh.width
                    &&& mid.height == fresh.height
                    &&& mid.point_set == fresh.point_set
                    &&& mid.next_idx == fresh.next_idx + lattice_count(sv)
                    &&& exists|turn: u64, points: Seq<((i32, i32), u32)>|
                        #![trigger lattice_placed(*place, box_lattice(b, sv, turn), sv, fresh.next_idx, points)]
                        turn < 628 && lattice_placed(*place, box_lattice(b, sv, turn), sv, fresh.next_idx, points)
                            && nearest_relabelled(fresh, mid, 0, b.0 as int, b.1 as int, b.2 as int, b.3 as int, points)
                };
            lemma_fresh_box(fresh, b);
        }
    }
    out
}

/// `v` is a `width` by `height` grid whose cells are all 0, with label 1 next to hand out
/// and no points.
pub open spec fn fresh_grid(v: Voronoi, width: int, height: int) -> bool {
    &&& v.wf()
    &&& v.width == width
    &&& v.height == height
    &&& v.next_idx == 1
    &&& v.point_set@ == Seq::<(i32, i32)>::empty()
    &&& forall|i: int| 0 <= i < v.data@.len() ==> v.data@[i] == 0
}

/// In a grid of at least one cell where every cell is 0, the box of the cells labelled 0 is
/// the whole grid.
proof fn lemma_fresh_box(v: Voronoi, b: (i32, i32, i32, i32))
    requires
        v.wf(),
        v.width > 0,
        v.height > 0,
        forall|i: int| 0 <= i < v.data@.len() ==> v.data@[i] == 0,
        mask_box(v, 0, b),
    ensures
        b == (0i32, 0i32, (v.width - 1) as i32, (v.height - 1) as i32),
{
    assert forall|x: int, y: int| in_grid(v.width as int, v.height as int, x, y) implies #[trigger] v.cell(x, y) == 0 by {
        lemma_index_in_grid(v.width as int, v.height as int, x, y);
    }
    assert(v.cell(0, 0) == 0);
    assert(v.cell(v.width - 1, v.height - 1) == 0);
    assert(in_box(b.0 as int, b.1 as int, b.2 as int, b.3 as int, 0, 0));
    assert(in_box(b.0 as int, b.1 as int, b.2 as int, b.3 as int, v.width - 1, v.height - 1));
}

/// The untidied step of setting up a city: a generated grid (see `generate_voronoi`) with
/// the count of labels handed out, its vertices and its regions (see `calculate_vertices`),
/// as found. Tidying the regions (ordering and moving vertices, dropping regions that are too
/// small, too large or labelled 0) works in floating point and is left to the caller, which
/// must run it to get the finished collection.
pub fn setup_city_collection<F: Fn(&Lattice, i32, i32) -> (i32, i32)>(width: i32, height: i32, place: &F) -> (r:
    CityCollection)
    requires
        width >= 0,
        height >= 0,
        width * height <= i32::MAX,
        width <= i32::MAX - 2,
        height <= i32::MAX - 2,
        sqrt_floor((width * height) as nat) >= 180,
        places_within(*place, width as int, height as int),
    ensures
        r.vor.wf(),
        r.vor.width == width,
        r.vor.height == height,
        r.point_count == r.vor.next_idx,
        labels_below(r.vor, r.point_count as int),
        city_vertices(&r.vor, r.vertices@, r.collections@),
        r.vor.point_set@ == Seq::<(i32, i32)>::empty(),
        1 <= r.point_count,
        div_toward_zero(width - 1, split_spacing(true, 2, width * height)) > 2 && div_toward_zero(
            height - 1,
            split_spacing(true, 2, width * height),
        ) > 2 ==> r.point_count >= 1 + lattice_count(split_spacing(true, 2, width * height)),
        exists|v0: Voronoi| fresh_grid(v0, width as int, height as int) && #[trigger] nested_split(*place, v0, r.vor, 0, 2, true),
{
    let vor = generate_voronoi(width, height, place);
    let point_count = vor.next_idx;
    let (vertices, collections) = calculate_vertices(&vor);
    CityCollection { vor, point_count, vertices, collections }
}

} // verus!
