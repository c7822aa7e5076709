use crate::buildings::{ascending_labels, in_grid, sort_labels, sorted_labels, Vertex, Voronoi};
use crate::vertices::{copy_labels, div_toward_zero, is_near, lemma_average_fits, near};
use vstd::prelude::*;

verus! {

/// How many vertices among the first `n`, other than vertex `i`, are near it (closer than 4).
pub open spec fn around_count(list: Seq<Vertex>, i: int, n: int) -> int
    decreases n,
{
    if n <= 0 {
        0
    } else {
        around_count(list, i, n - 1) + if n - 1 != i && near(list[i], list[n - 1], 4) {
            1int
        } else {
            0int
        }
    }
}

/// The sum of the x coordinates of the vertices among the first `n`, other than `i`, near `i`.
pub open spec fn around_sum_x(list: Seq<Vertex>, i: int, n: int) -> int
    decreases n,
{
    if n <= 0 {
        0
    } else {
        around_sum_x(list, i, n - 1) + if n - 1 != i && near(list[i], list[n - 1], 4) {
            list[n - 1].x as int
        } else {
            0int
        }
    }
}

/// The sum of the y coordinates of the vertices among the first `n`, other than `i`, near `i`.
pub open spec fn around_sum_y(list: Seq<Vertex>, i: int, n: int) -> int
    decreases n,
{
    if n <= 0 {
        0
    } else {
        around_sum_y(list, i, n - 1) + if n - 1 != i && near(list[i], list[n - 1], 4) {
            list[n - 1].y as int
        } else {
            0int
        }
    }
}

/// The average position, rounded toward zero, of vertex `i` and every other vertex near it.
pub open spec fn around_center(list: Seq<Vertex>, i: int) -> (int, int) {
    let n = list.len() as int;
    let c = 1 + around_count(list, i, n);
    (
        div_toward_zero(list[i].x + around_sum_x(list, i, n), c),
        div_toward_zero(list[i].y + around_sum_y(list, i, n), c),
    )
}

/// Label `l` borders vertex `i` or another vertex near it.
pub open spec fn around_has_label(list: Seq<Vertex>, i: int, l: u32) -> bool {
    list[i].borders@.contains(l) || exists|j: int|
        0 <= j < list.len() && j != i && near(list[i], list[j], 4) && (#[trigger] list[j].borders@).contains(l)
}

/// The positions of the vertices near vertex `i`, other than `i` itself.
pub open spec fn positions_near(list: Seq<Vertex>, i: int) -> Set<(i32, i32)> {
    Set::new(
        |p: (i32, i32)|
            exists|j: int| 0 <= j < list.len() && j != i && near(list[i], list[j], 4) && p == (#[trigger] list[j].x, list[j].y),
    )
}

/// Going through the first `n` vertices in order: those kept (whose position no kept vertex
/// before them has absorbed), and the positions absorbed so far.
pub open spec fn around_state(list: Seq<Vertex>, n: int) -> (Seq<int>, Set<(i32, i32)>)
    decreases n,
{
    if n <= 0 {
        (Seq::empty(), Set::empty())
    } else {
        let (kept, absorbed) = around_state(list, n - 1);
        if absorbed.contains((list[n - 1].x, list[n - 1].y)) {
            (kept, absorbed)
        } else {
            (kept.push(n - 1), absorbed.union(positions_near(list, n - 1)))
        }
    }
}

/// `out` is what `merge_around` makes of `list`.
pub open spec fn merged_around(list: Seq<Vertex>, out: Seq<Vertex>) -> bool {
    let kept = around_state(list, list.len() as int).0;
    &&& out.len() == kept.len()
    &&& forall|k: int|
        0 <= k < out.len() ==> {
            let i = kept[k];
            &&& 0 <= i < list.len()
            &&& (#[trigger] out[k]).x as int == around_center(list, i).0
            &&& out[k].y as int == around_center(list, i).1
            &&& sorted_labels(out[k].borders@)
            &&& list[i].borders@.no_duplicates() ==> ascending_labels(out[k].borders@)
            &&& forall|l: u32| #[trigger] out[k].borders@.contains(l) <==> around_has_label(list, i, l)
        }
}

proof fn lemma_around_sums(list: Seq<Vertex>, i: int, n: int)
    requires
        0 <= i < list.len(),
        0 <= n <= list.len(),
    ensures
        0 <= around_count(list, i, n) <= n,
        i32::MIN * around_count(list, i, n) <= around_sum_x(list, i, n) <= i32::MAX * around_count(list, i, n),
        i32::MIN * around_count(list, i, n) <= around_sum_y(list, i, n) <= i32::MAX * around_count(list, i, n),
    decreases n,
{
    if n > 0 {
        lemma_around_sums(list, i, n - 1);
    }
}

proof fn lemma_around_kept_bounds(list: Seq<Vertex>, n: int)
    requires
        0 <= n,
    ensures
        around_state(list, n).0.len() <= n,
        forall|k: int| 0 <= k < around_state(list, n).0.len() ==> 0 <= #[trigger] around_state(list, n).0[k] < n,
    decreases n,
{
    if n > 0 {
        lemma_around_kept_bounds(list, n - 1);
    }
}

/// Whether `pos` is in `list`.
fn holds_position(list: &Vec<(i32, i32)>, pos: (i32, i32)) -> (r: bool)
    ensures
        r == list@.contains(pos),
{
    let mut k: usize = 0;
    while k < list.len()
        invariant
            k <= list@.len(),
            forall|m: int| 0 <= m < k ==> list@[m] != pos,
        decreases list@.len() - k,
    {
        if list[k].0 == pos.0 && list[k].1 == pos.1 {
            assert(list@[k as int] == pos);
            return true;
        }
        k = k + 1;
    }
    false
}

/// Merges each vertex with every other vertex closer than 4 to it. Going through the list in
/// order, a vertex whose position was absorbed by an earlier kept vertex is skipped; every
/// other one is kept and absorbs the positions of all the vertices near it, before or after
/// it: the merged vertex lies at their average position with the kept one (rounded toward
/// zero) and borders every region any of them borders, in ascending order.
pub fn merge_around(list: &Vec<Vertex>) -> (r: Vec<Vertex>)
    requires
        list@.len() <= i32::MAX,
    ensures
        merged_around(list@, r@),
{
    let n = list.len();
    let mut absorbed: Vec<(i32, i32)> = Vec::new();
    let mut out: Vec<Vertex> = Vec::new();
    let mut i: usize = 0;
    while i < n
        invariant
            n == list@.len(),
            n <= i32::MAX,
            i <= n,
            forall|p: (i32, i32)| #[trigger] absorbed@.contains(p) <==> around_state(list@, i as int).1.contains(p),
            out@.len() == around_state(list@, i as int).0.len(),
            forall|k: int|
                0 <= k < out@.len() ==> {
                    let m = around_state(list@, i as int).0[k];
                    &&& 0 <= m < i
                    &&& (#[trigger] out@[k]).x as int == around_center(list@, m).0
                    &&& out@[k].y as int == around_center(list@, m).1
                    &&& sorted_labels(out@[k].borders@)
                    &&& list@[m].borders@.no_duplicates() ==> ascending_labels(out@[k].borders@)
                    &&& forall|l: u32| #[trigger] out@[k].borders@.contains(l) <==> around_has_label(list@, m, l)
                },
        decreases n - i,
    {
        let ghost st = around_state(list@, i as int);
        proof {
            lemma_around_kept_bounds(list@, i + 1);
            lemma_around_kept_bounds(list@, i as int);
        }
        let a = &list[i];
        if holds_position(&absorbed, (a.x, a.y)) {
            proof {
                assert(around_state(list@, i + 1) == st);
            }
        } else {
            let ghost absorbed0 = absorbed@;
            let mut sx: i64 = a.x as i64;
            let mut sy: i64 = a.y as i64;
            let mut cnt: i64 = 1;
            let mut borders = copy_labels(&a.borders);
            let mut j: usize = 0;
            while j < n
                invariant
                    n == list@.len(),
                    n <= i32::MAX,
                    i < n,
                    j <= n,
                    *a == list@[i as int],
                    cnt == 1 + around_count(list@, i as int, j as int),
                    sx == a.x + around_sum_x(list@, i as int, j as int),
                    sy == a.y + around_sum_y(list@, i as int, j as int),
                    forall|p: (i32, i32)|
                        #[trigger] absorbed@.contains(p) <==> absorbed0.contains(p) || exists|q: int|
                            0 <= q < j && q != i && near(list@[i as int], list@[q], 4) && p == (#[trigger] list@[q].x, list@[q].y),
                    forall|l: u32|
                        #[trigger] borders@.contains(l) <==> list@[i as int].borders@.contains(l) || exists|q: int|
                            0 <= q < j && q != i && near(list@[i as int], list@[q], 4) && (#[trigger] list@[q].borders@).contains(l),
                    list@[i as int].borders@.no_duplicates() ==> borders@.no_duplicates(),
                decreases n - j,
            {
                proof {
                    lemma_around_sums(list@, i as int, j as int);
                    assert(i32::MAX * around_count(list@, i as int, j as int) <= i32::MAX * (i32::MAX as int)) by (nonlinear_arith)
                        requires
                            0 <= around_count(list@, i as int, j as int) <= i32::MAX,
                    ;
                    assert(i32::MIN * around_count(list@, i as int, j as int) >= i32::MIN * (i32::MAX as int)) by (nonlinear_arith)
                        requires
                            0 <= around_count(list@, i as int, j as int) <= i32::MAX,
                    ;
                }
                let ghost before_abs = absorbed@;
                let ghost before_b = borders@;
                if j != i && is_near(a, &list[j], 4) {
                    let b = &list[j];
                    absorbed.push((b.x, b.y));
                    sx = sx + b.x as i64;
                    sy = sy + b.y as i64;
                    cnt = cnt + 1;
                    let mut t: usize = 0;
                    while t < b.borders.len()
                        invariant
                            t <= b.borders@.len(),
                            forall|l: u32|
                                #[trigger] borders@.contains(l) <==> before_b.contains(l) || b.borders@.take(t as int).contains(l),
                            before_b.no_duplicates() ==> borders@.no_duplicates(),
                        decreases b.borders@.len() - t,
                    {
                        let k = b.borders[t];
                        let ghost mid = borders@;
                        if !crate::buildings::has_label(&borders, k) {
                            borders.push(k);
                        }
                        proof {
                            assert(b.borders@.take(t + 1) =~= b.borders@.take(t as int).push(k));
                            assert forall|l: u32| #[trigger] borders@.contains(l) <==> before_b.contains(l) || b.borders@.take(t + 1).contains(l) by {
                                if borders@.contains(l) && !mid.contains(l) {
                                    let w = choose|w: int| 0 <= w < borders@.len() && #[trigger] borders@[w] == l;
                                    if w < mid.len() {
                                        assert(mid[w] == l);
                                    }
                                    assert(b.borders@.take(t + 1)[t as int] == k);
                                }
                                if mid.contains(l) {
                                    let w = choose|w: int| 0 <= w < mid.len() && #[trigger] mid[w] == l;
                                    assert(borders@[w] == l);
                                }
                                if b.borders@.take(t + 1).contains(l) && !b.borders@.take(t as int).contains(l) {
                                    let w = choose|w: int| 0 <= w < t + 1 && #[trigger] b.borders@.take(t + 1)[w] == l;
                                    if w < t {
                                        assert(b.borders@.take(t as int)[w] == l);
                                    }
                                    if !mid.contains(k) {
                                        assert(borders@[mid.len() as int] == k);
                                    }
                                }
                                if b.borders@.take(t as int).contains(l) {
                                    let w = choose|w: int| 0 <= w < t && #[trigger] b.borders@.take(t as int)[w] == l;
                                    assert(b.borders@.take(t + 1)[w] == l);
                                }
                            }
                        }
                        t = t + 1;
                    }
                    proof {
                        assert(b.borders@.take(b.borders@.len() as int) =~= b.borders@);
                    }
                }
                proof {
                    assert forall|p: (i32, i32)|
                        #[trigger] absorbed@.contains(p) <==> absorbed0.contains(p) || exists|q: int|
                            0 <= q < j + 1 && q != i && near(list@[i as int], list@[q], 4) && p == (#[trigger] list@[q].x, list@[q].y) by {
                        if absorbed@.contains(p) && !before_abs.contains(p) {
                            let w = choose|w: int| 0 <= w < absorbed@.len() && #[trigger] absorbed@[w] == p;
                            if w < before_abs.len() {
                                assert(before_abs[w] == p);
                            }
                            assert(p == (list@[j as int].x, list@[j as int].y));
                        }
                        if before_abs.contains(p) {
                            let w = choose|w: int| 0 <= w < before_abs.len() && #[trigger] before_abs[w] == p;
                            assert(absorbed@[w] == p);
                        }
                        if exists|q: int|
                            0 <= q < j + 1 && q != i && near(list@[i as int], list@[q], 4) && p == (#[trigger] list@[q].x, list@[q].y) {
                            let q = choose|q: int|
                                0 <= q < j + 1 && q != i && near(list@[i as int], list@[q], 4) && p == (#[trigger] list@[q].x, list@[q].y);
                            if q == j {
                                assert(absorbed@[before_abs.len() as int] == p);
                            }
                        }
                    }
                    assert forall|l: u32|
                        #[trigger] borders@.contains(l) <==> list@[i as int].borders@.contains(l) || exists|q: int|
                            0 <= q < j + 1 && q != i && near(list@[i as int], list@[q], 4) && (#[trigger] list@[q].borders@).contains(l) by {
                        if exists|q: int|
                            0 <= q < j + 1 && q != i && near(list@[i as int], list@[q], 4) && (#[trigger] list@[q].borders@).contains(l) {
                            let q = choose|q: int|
                                0 <= q < j + 1 && q != i && near(list@[i as int], list@[q], 4) && (#[trigger] list@[q].borders@).contains(l);
                            assert(list@[q].borders@.contains(l));
                        }
                    }
                }
                j = j + 1;
            }
            proof {
                lemma_around_sums(list@, i as int, n as int);
                lemma_average_fits(sx as int, cnt as int);
                lemma_average_fits(sy as int, cnt as int);
            }
            let ghost unsorted = borders@;
            sort_labels(&mut borders);
            proof {
                unsorted.to_multiset_ensures();
                borders@.to_multiset_ensures();
                assert forall|l: u32| #[trigger] borders@.contains(l) <==> unsorted.contains(l) by {
                    assert(borders@.to_multiset().count(l) == unsorted.to_multiset().count(l));
                    assert(borders@.contains(l) <==> borders@.to_multiset().count(l) > 0);
                    assert(unsorted.contains(l) <==> unsorted.to_multiset().count(l) > 0);
                }
            }
            out.push(Vertex { x: (sx / cnt) as i32, y: (sy / cnt) as i32, borders });
            proof {
                let q = around_state(list@, i + 1);
                assert(!st.1.contains((list@[i as int].x, list@[i as int].y)));
                assert(q.0 == st.0.push(i as int));
                assert(q.1 == st.1.union(positions_near(list@, i as int)));
                assert forall|p: (i32, i32)| #[trigger] absorbed@.contains(p) <==> q.1.contains(p) by {
                    if positions_near(list@, i as int).contains(p) {
                        let jj = choose|jj: int|
                            0 <= jj < list@.len() && jj != i && near(list@[i as int], list@[jj], 4) && p == (#[trigger] list@[jj].x, list@[jj].y);
                        assert(absorbed@.contains(p));
                    }
                }
                assert forall|k: int| 0 <= k < out@.len() implies {
                    let m = around_state(list@, i + 1).0[k];
                    &&& 0 <= m < i + 1
                    &&& (#[trigger] out@[k]).x as int == around_center(list@, m).0
                    &&& out@[k].y as int == around_center(list@, m).1
                    &&& sorted_labels(out@[k].borders@)
                    &&& list@[m].borders@.no_duplicates() ==> ascending_labels(out@[k].borders@)
                    &&& forall|l: u32| #[trigger] out@[k].borders@.contains(l) <==> around_has_label(list@, m, l)
                } by {
                    if k < st.0.len() {
                        assert(q.0[k] == st.0[k]);
                    } else {
                        assert forall|l: u32| #[trigger] out@[k].borders@.contains(l) <==> around_has_label(list@, i as int, l) by {
                            if around_has_label(list@, i as int, l) && !list@[i as int].borders@.contains(l) {
                                let jj = choose|jj: int|
                                    0 <= jj < list@.len() && jj != i && near(list@[i as int], list@[jj], 4) && (#[trigger] list@[jj].borders@).contains(l);
                                assert(list@[jj].borders@.contains(l));
                            }
                        }
                    }
                }
            }
        }
        i = i + 1;
    }
    proof {
        lemma_around_kept_bounds(list@, n as int);
    }
    out
}

/// A cell within 2 steps of (x, y) along both axes is labelled 0 (or lies off the grid).
pub open spec fn cleared_near(v: &Voronoi, x: int, y: int) -> bool {
    exists|dx: int, dy: int| -2 <= dx <= 2 && -2 <= dy <= 2 && #[trigger] v.cell(x + dx, y + dy) == 0
}

/// Whether a cell within 2 steps of (x, y) along both axes is labelled 0 or lies off the
/// grid: whether the vertex at (x, y) is next to a road.
pub fn touches_cleared(vor: &Voronoi, x: i32, y: i32) -> (r: bool)
    requires
        vor.wf(),
        i32::MIN + 2 <= x <= i32::MAX - 2,
        i32::MIN + 2 <= y <= i32::MAX - 2,
    ensures
        r == cleared_near(vor, x as int, y as int),
{
    let mut dy: i32 = -2;
    while dy <= 2
        invariant
            vor.wf(),
            i32::MIN + 2 <= x <= i32::MAX - 2,
            i32::MIN + 2 <= y <= i32::MAX - 2,
            -2 <= dy <= 3,
            forall|ex: int, ey: int| -2 <= ex <= 2 && -2 <= ey < dy ==> #[trigger] vor.cell(x + ex, y + ey) != 0,
        decreases 3 - dy,
    {
        let mut dx: i32 = -2;
        while dx <= 2
            invariant
                vor.wf(),
                i32::MIN + 2 <= x <= i32::MAX - 2,
                i32::MIN + 2 <= y <= i32::MAX - 2,
                -2 <= dy <= 2,
                -2 <= dx <= 3,
                forall|ex: int, ey: int| -2 <= ex <= 2 && -2 <= ey < dy ==> #[trigger] vor.cell(x + ex, y + ey) != 0,
                forall|ex: int| -2 <= ex < dx ==> #[trigger] vor.cell(x + ex, y + dy) != 0,
            decreases 3 - dx,
        {
            if vor.get(x + dx, y + dy) == 0 {
                assert(vor.cell(x + dx, y + dy) == 0);
                return true;
            }
            dx = dx + 1;
        }
        dy = dy + 1;
    }
    false
}

/// Positions `i` and `j` are next to each other around a cycle of `n`.
pub open spec fn cyclic_neighbours(i: int, j: int, n: int) -> bool {
    i == (j + 1) % n || j == (i + 1) % n
}

/// Two vertices of the outline that are not next to each other lie closer than 8.
pub open spec fn crowded(v: Seq<Vertex>) -> bool {
    exists|i: int, j: int|
        0 <= i < v.len() && 0 <= j < v.len() && i != j && !cyclic_neighbours(i, j, v.len() as int) && near(
            #[trigger] v[i],
            #[trigger] v[j],
            8,
        )
}

/// The squared distance between two vertices.
pub open spec fn dist2_between(a: Vertex, b: Vertex) -> int {
    (a.x - b.x) * (a.x - b.x) + (a.y - b.y) * (a.y - b.y)
}

/// Some edge of the closed outline is longer than 40.
pub open spec fn has_long_edge(v: Seq<Vertex>) -> bool {
    exists|i: int| 0 <= i < v.len() && dist2_between(#[trigger] v[i], v[(i + 1) % (v.len() as int)]) > 1600
}

/// The outline is unusable as a block: two vertices not next to each other are closer than 8,
/// it has fewer than 4 vertices, an edge is longer than 40, or its region has fewer than 400
/// or more than 4096 cells.
pub open spec fn degenerate_outline(v: Seq<Vertex>, point_count: int) -> bool {
    crowded(v) || v.len() < 4 || has_long_edge(v) || point_count < 400 || point_count > 4096
}

/// Whether the two vertices lie more than 40 apart.
fn far_apart(a: &Vertex, b: &Vertex) -> (r: bool)
    ensures
        r == (dist2_between(*a, *b) > 1600),
{
    let dx = a.x as i64 - b.x as i64;
    let dy = a.y as i64 - b.y as i64;
    if -40 <= dx && dx <= 40 && -40 <= dy && dy <= 40 {
        assert(dx * dx <= 1600 && dy * dy <= 1600 && dx * dx >= 0 && dy * dy >= 0) by (nonlinear_arith)
            requires
                -40 <= dx <= 40,
                -40 <= dy <= 40,
        ;
        dx * dx + dy * dy > 1600
    } else {
        proof {
            assert(dx * dx > 1600 || dy * dy > 1600) by (nonlinear_arith)
                requires
                    !(-40 <= dx && dx <= 40 && -40 <= dy && dy <= 40),
            ;
            assert(dx * dx >= 0 && dy * dy >= 0) by (nonlinear_arith);
        }
        true
    }
}

/// Whether the outline of a region, with `point_count` cells, is unusable as a block (see
/// `degenerate_outline`).
pub fn outline_degenerate(vertices: &Vec<Vertex>, point_count: usize) -> (r: bool)
    ensures
        r == degenerate_outline(vertices@, point_count as int),
{
    let n = vertices.len();
    let mut i: usize = 0;
    while i < n
        invariant
            n == vertices@.len(),
            i <= n,
            forall|a: int, b: int|
                0 <= a < i && 0 <= b < n && a != b && !cyclic_neighbours(a, b, n as int) ==> !near(
                    #[trigger] vertices@[a],
                    #[trigger] vertices@[b],
                    8,
                ),
        decreases n - i,
    {
        let mut j: usize = 0;
        while j < n
            invariant
                n == vertices@.len(),
                i < n,
                j <= n,
                forall|a: int, b: int|
                    0 <= a < i && 0 <= b < n && a != b && !cyclic_neighbours(a, b, n as int) ==> !near(
                        #[trigger] vertices@[a],
                        #[trigger] vertices@[b],
                        8,
                    ),
                forall|b: int|
                    0 <= b < j && i != b && !cyclic_neighbours(i as int, b, n as int) ==> !near(
                        vertices@[i as int],
                        #[trigger] vertices@[b],
                        8,
                    ),
            decreases n - j,
        {
            if i != j && i != (j + 1) % n && j != (i + 1) % n && is_near(&vertices[i], &vertices[j], 8) {
                assert(near(vertices@[i as int], vertices@[j as int], 8));
                return true;
            }
            j = j + 1;
        }
        i = i + 1;
    }
    if n < 4 {
        return true;
    }
    let mut k: usize = 0;
    while k < n
        invariant
            n == vertices@.len(),
            n >= 4,
            k <= n,
            forall|a: int| 0 <= a < k ==> dist2_between(#[trigger] vertices@[a], vertices@[(a + 1) % (n as int)]) <= 1600,
        decreases n - k,
    {
        let next = (k + 1) % n;
        if far_apart(&vertices[k], &vertices[next]) {
            assert(dist2_between(vertices@[k as int], vertices@[(k + 1) % (n as int)]) > 1600);
            return true;
        }
        k = k + 1;
    }
    point_count < 400 || point_count > 4096
}

} // verus!
