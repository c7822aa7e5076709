use crate::buildings::{
    attach_vertices, before_in_rows, collect_points, distinct_nonzero, find_vertices, has_label,
    has_margin, in_grid, kinds_at, label_cells, lemma_index_in_grid, neighbor_labels,
    plus_offsets, same_vertices, sort_labels, sorted_labels, ascending_labels, lemma_no_duplicates_same_multiset, vertices_on, PointCollection,
    Vertex, Voronoi,
};
use std::collections::HashMap;
use vstd::prelude::*;

verus! {

/// Rust's integer division of `a` by a positive `b`: the quotient rounded toward zero.
pub open spec fn div_toward_zero(a: int, b: int) -> int {
    if a >= 0 {
        a / b
    } else {
        -((-a) / b)
    }
}

/// How many of the first `n` vertices have exactly the borders `b`.
pub open spec fn border_count(list: Seq<Vertex>, b: Seq<u32>, n: int) -> int
    decreases n,
{
    if n <= 0 {
        0
    } else {
        border_count(list, b, n - 1) + if list[n - 1].borders@ == b {
            1int
        } else {
            0int
        }
    }
}

/// The sum of the x coordinates of the first `n` vertices whose borders are `b`.
pub open spec fn border_sum_x(list: Seq<Vertex>, b: Seq<u32>, n: int) -> int
    decreases n,
{
    if n <= 0 {
        0
    } else {
        border_sum_x(list, b, n - 1) + if list[n - 1].borders@ == b {
            list[n - 1].x as int
        } else {
            0int
        }
    }
}

/// The sum of the y coordinates of the first `n` vertices whose borders are `b`.
pub open spec fn border_sum_y(list: Seq<Vertex>, b: Seq<u32>, n: int) -> int
    decreases n,
{
    if n <= 0 {
        0
    } else {
        border_sum_y(list, b, n - 1) + if list[n - 1].borders@ == b {
            list[n - 1].y as int
        } else {
            0int
        }
    }
}

/// The average position, rounded toward zero, of the vertices whose borders are `b`.
pub open spec fn border_center(list: Seq<Vertex>, b: Seq<u32>) -> (int, int) {
    let c = border_count(list, b, list.len() as int);
    (
        div_toward_zero(border_sum_x(list, b, list.len() as int), c),
        div_toward_zero(border_sum_y(list, b, list.len() as int), c),
    )
}

/// The positions, among the first `n`, of the vertices that `merge_same_borders` keeps: each
/// whose border center differs from the centers of those kept before it.
pub open spec fn kept_same(list: Seq<Vertex>, n: int) -> Seq<int>
    decreases n,
{
    if n <= 0 {
        Seq::empty()
    } else {
        let p = kept_same(list, n - 1);
        let c = border_center(list, list[n - 1].borders@);
        if exists|k: int| 0 <= k < p.len() && border_center(list, list[#[trigger] p[k]].borders@) == c {
            p
        } else {
            p.push(n - 1)
        }
    }
}

proof fn lemma_kept_same_bounds(list: Seq<Vertex>, n: int)
    requires
        0 <= n,
    ensures
        kept_same(list, n).len() <= n,
        forall|k: int| 0 <= k < kept_same(list, n).len() ==> 0 <= #[trigger] kept_same(list, n)[k] < n,
    decreases n,
{
    if n > 0 {
        lemma_kept_same_bounds(list, n - 1);
    }
}

/// The labels of `a` are those of `b`, in ascending order.
pub open spec fn sorted_copy_of(a: Seq<u32>, b: Seq<u32>) -> bool {
    sorted_labels(a) && a.to_multiset() == b.to_multiset()
}

proof fn lemma_border_sums(list: Seq<Vertex>, b: Seq<u32>, n: int)
    requires
        0 <= n <= list.len(),
    ensures
        0 <= border_count(list, b, n) <= n,
        i32::MIN * border_count(list, b, n) <= border_sum_x(list, b, n) <= i32::MAX * border_count(list, b, n),
        i32::MIN * border_count(list, b, n) <= border_sum_y(list, b, n) <= i32::MAX * border_count(list, b, n),
    decreases n,
{
    if n > 0 {
        lemma_border_sums(list, b, n - 1);
    }
}

pub(crate) proof fn lemma_average_fits(sum: int, c: int)
    requires
        c > 0,
        i32::MIN * c <= sum <= i32::MAX * c,
    ensures
        i32::MIN <= div_toward_zero(sum, c) <= i32::MAX,
{
    if sum >= 0 {
        assert(sum / c <= i32::MAX) by (nonlinear_arith)
            requires
                c > 0,
                0 <= sum <= i32::MAX * c,
        ;
        assert(sum / c >= 0) by (nonlinear_arith)
            requires
                c > 0,
                0 <= sum,
        ;
    } else {
        assert((-sum) / c <= -(i32::MIN as int)) by (nonlinear_arith)
            requires
                c > 0,
                0 < -sum <= -(i32::MIN as int) * c,
        ;
        assert((-sum) / c >= 0) by (nonlinear_arith)
            requires
                c > 0,
                0 < -sum,
        ;
    }
}

/// `out` is what `merge_same_borders` makes of `list`: one vertex per kept position, at the
/// border center of that vertex's borders, with those borders in ascending order.
pub open spec fn same_borders_merged(list: Seq<Vertex>, out: Seq<Vertex>) -> bool {
    &&& out.len() == kept_same(list, list.len() as int).len()
    &&& forall|k: int|
        0 <= k < out.len() ==> {
            let i = kept_same(list, list.len() as int)[k];
            &&& 0 <= i < list.len()
            &&& (#[trigger] out[k]).x as int == border_center(list, list[i].borders@).0
            &&& out[k].y as int == border_center(list, list[i].borders@).1
            &&& sorted_copy_of(out[k].borders@, list[i].borders@)
        }
}

/// Whether the two label lists are equal.
fn same_labels(a: &Vec<u32>, b: &Vec<u32>) -> (r: bool)
    ensures
        r == (a@ == b@),
{
    if a.len() != b.len() {
        return false;
    }
    let mut i: usize = 0;
    while i < a.len()
        invariant
            a@.len() == b@.len(),
            i <= a@.len(),
            forall|k: int| 0 <= k < i ==> a@[k] == b@[k],
        decreases a@.len() - i,
    {
        if a[i] != b[i] {
            return false;
        }
        i = i + 1;
    }
    proof {
        assert(a@ =~= b@);
    }
    true
}

/// A copy of the labels.
pub(crate) fn copy_labels(a: &Vec<u32>) -> (r: Vec<u32>)
    ensures
        r@ == a@,
{
    let mut r: Vec<u32> = Vec::new();
    let mut i: usize = 0;
    while i < a.len()
        invariant
            i <= a@.len(),
            r@ == a@.take(i as int),
        decreases a@.len() - i,
    {
        r.push(a[i]);
        proof {
            assert(a@.take(i + 1) =~= a@.take(i as int).push(a@[i as int]));
        }
        i = i + 1;
    }
    proof {
        assert(a@.take(a@.len() as int) =~= a@);
    }
    r
}

/// The average position, rounded toward zero, of the vertices of `list` whose borders are `b`.
fn center_of_borders(list: &Vec<Vertex>, b: &Vec<u32>) -> (r: (i32, i32))
    requires
        list@.len() <= i32::MAX,
        border_count(list@, b@, list@.len() as int) > 0,
    ensures
        r.0 as int == border_center(list@, b@).0,
        r.1 as int == border_center(list@, b@).1,
{
    let n = list.len();
    let mut sx: i64 = 0;
    let mut sy: i64 = 0;
    let mut cnt: i64 = 0;
    let mut j: usize = 0;
    while j < n
        invariant
            n == list@.len(),
            n <= i32::MAX,
            j <= n,
            cnt == border_count(list@, b@, j as int),
            sx == border_sum_x(list@, b@, j as int),
            sy == border_sum_y(list@, b@, j as int),
        decreases n - j,
    {
        proof {
            lemma_border_sums(list@, b@, j as int);
            assert(i32::MAX * border_count(list@, b@, j as int) <= i32::MAX * (j as int)) by (nonlinear_arith)
                requires
                    0 <= border_count(list@, b@, j as int) <= j,
            ;
            assert(i32::MIN * border_count(list@, b@, j as int) >= i32::MIN * (j as int)) by (nonlinear_arith)
                requires
                    0 <= border_count(list@, b@, j as int) <= j,
            ;
            assert(i32::MAX * (j as int) <= i32::MAX * (i32::MAX as int)) by (nonlinear_arith)
                requires
                    0 <= j <= i32::MAX,
            ;
            assert(i32::MIN * (j as int) >= i32::MIN * (i32::MAX as int)) by (nonlinear_arith)
                requires
                    0 <= j <= i32::MAX,
            ;
        }
        if same_labels(&list[j].borders, b) {
            sx = sx + list[j].x as i64;
            sy = sy + list[j].y as i64;
            cnt = cnt + 1;
        }
        j = j + 1;
    }
    proof {
        lemma_border_sums(list@, b@, n as int);
        lemma_average_fits(sx as int, cnt as int);
        lemma_average_fits(sy as int, cnt as int);
    }
    ((sx / cnt) as i32, (sy / cnt) as i32)
}

proof fn lemma_own_border_counted(list: Seq<Vertex>, i: int, n: int)
    requires
        0 <= i < n <= list.len(),
    ensures
        border_count(list, list[i].borders@, n) > 0,
    decreases n,
{
    lemma_border_sums(list, list[i].borders@, n - 1);
    if i < n - 1 {
        lemma_own_border_counted(list, i, n - 1);
    }
    assert(border_count(list, list[i].borders@, n) >= border_count(list, list[i].borders@, n - 1));
}

/// Merges the vertices that border exactly the same regions into one vertex at their
/// average position (rounded toward zero) with their borders in ascending order. The merged
/// vertices come in the order of the first vertex of each kind; a vertex whose merged position
/// equals that of one already produced is left out.
pub fn merge_same_borders(list: &Vec<Vertex>) -> (r: Vec<Vertex>)
    requires
        list@.len() <= i32::MAX,
    ensures
        same_borders_merged(list@, r@),
{
    let n = list.len();
    let mut out: Vec<Vertex> = Vec::new();
    let mut centers: Vec<(i32, i32)> = Vec::new();
    let mut i: usize = 0;
    while i < n
        invariant
            n == list@.len(),
            n <= i32::MAX,
            i <= n,
            out@.len() == kept_same(list@, i as int).len(),
            centers@.len() == out@.len(),
            forall|k: int|
                0 <= k < out@.len() ==> {
                    let m = kept_same(list@, i as int)[k];
                    &&& 0 <= m < i
                    &&& (#[trigger] centers@[k]).0 as int == border_center(list@, list@[m].borders@).0
                    &&& centers@[k].1 as int == border_center(list@, list@[m].borders@).1
                    &&& out@[k].x == centers@[k].0
                    &&& out@[k].y == centers@[k].1
                    &&& sorted_copy_of(out@[k].borders@, list@[m].borders@)
                },
        decreases n - i,
    {
        proof {
            lemma_own_border_counted(list@, i as int, n as int);
        }
        let c = center_of_borders(list, &list[i].borders);
        let ghost p = kept_same(list@, i as int);
        let mut seen = false;
        let mut k: usize = 0;
        while k < centers.len()
            invariant
                k <= centers@.len(),
                centers@.len() == p.len(),
                forall|q: int|
                    0 <= q < p.len() ==> {
                        &&& (#[trigger] centers@[q]).0 as int == border_center(list@, list@[p[q]].borders@).0
                        &&& centers@[q].1 as int == border_center(list@, list@[p[q]].borders@).1
                    },
                seen <==> exists|q: int| 0 <= q < k && border_center(list@, list@[#[trigger] p[q]].borders@) == (c.0 as int, c.1 as int),
            decreases centers@.len() - k,
        {
            if centers[k].0 == c.0 && centers[k].1 == c.1 {
                assert(border_center(list@, list@[p[k as int]].borders@) == (c.0 as int, c.1 as int));
                seen = true;
            }
            k = k + 1;
        }
        if !seen {
            let mut b2 = copy_labels(&list[i].borders);
            sort_labels(&mut b2);
            centers.push(c);
            out.push(Vertex { x: c.0, y: c.1, borders: b2 });
        }
        proof {
            let q = kept_same(list@, i + 1);
            lemma_kept_same_bounds(list@, i + 1);
            if seen {
                assert(q == p);
            } else {
                assert(!exists|m: int| 0 <= m < p.len() && border_center(list@, list@[#[trigger] p[m]].borders@) == border_center(list@, list@[i as int].borders@));
                assert(q == p.push(i as int));
            }
            assert forall|k: int| 0 <= k < out@.len() implies {
                let m = kept_same(list@, i + 1)[k];
                &&& 0 <= m < i + 1
                &&& (#[trigger] centers@[k]).0 as int == border_center(list@, list@[m].borders@).0
                &&& centers@[k].1 as int == border_center(list@, list@[m].borders@).1
                &&& out@[k].x == centers@[k].0
                &&& out@[k].y == centers@[k].1
                &&& sorted_copy_of(out@[k].borders@, list@[m].borders@)
            } by {
                if k < p.len() {
                    assert(q[k] == p[k]);
                }
            }
        }
        i = i + 1;
    }
    proof {
        lemma_kept_same_bounds(list@, n as int);
        assert forall|k: int| 0 <= k < out@.len() implies {
            let m = kept_same(list@, n as int)[k];
            &&& 0 <= m < list@.len()
            &&& (#[trigger] out@[k]).x as int == border_center(list@, list@[m].borders@).0
            &&& out@[k].y as int == border_center(list@, list@[m].borders@).1
            &&& sorted_copy_of(out@[k].borders@, list@[m].borders@)
        } by {
            // Brings the loop's facts about entry `k` into play.
            assert(centers@[k] == centers@[k]);
        }
    }
    out
}

/// The two vertices lie less than `radius` apart: their squared distance is below `radius * radius`.
pub open spec fn near(a: Vertex, b: Vertex, radius: int) -> bool {
    (a.x - b.x) * (a.x - b.x) + (a.y - b.y) * (a.y - b.y) < radius * radius
}

/// The positions, among the first `n`, of the vertices that `merge_close_vertices` keeps as
/// the heads of groups: each that is not near an earlier head.
pub open spec fn leaders(list: Seq<Vertex>, n: int, radius: int) -> Seq<int>
    decreases n,
{
    if n <= 0 {
        Seq::empty()
    } else {
        let p = leaders(list, n - 1, radius);
        if exists|k: int| 0 <= k < p.len() && near(list[#[trigger] p[k]], list[n - 1], radius) {
            p
        } else {
            p.push(n - 1)
        }
    }
}

/// How many of the vertices after position `i` and before `n` are near vertex `i`.
pub open spec fn near_count(list: Seq<Vertex>, i: int, n: int, radius: int) -> int
    decreases n - i,
{
    if n <= i + 1 {
        0
    } else {
        near_count(list, i, n - 1, radius) + if near(list[i], list[n - 1], radius) {
            1int
        } else {
            0int
        }
    }
}

/// The sum of the x coordinates of the vertices after `i` and before `n` that are near `i`.
pub open spec fn near_sum_x(list: Seq<Vertex>, i: int, n: int, radius: int) -> int
    decreases n - i,
{
    if n <= i + 1 {
        0
    } else {
        near_sum_x(list, i, n - 1, radius) + if near(list[i], list[n - 1], radius) {
            list[n - 1].x as int
        } else {
            0int
        }
    }
}

/// The sum of the y coordinates of the vertices after `i` and before `n` that are near `i`.
pub open spec fn near_sum_y(list: Seq<Vertex>, i: int, n: int, radius: int) -> int
    decreases n - i,
{
    if n <= i + 1 {
        0
    } else {
        near_sum_y(list, i, n - 1, radius) + if near(list[i], list[n - 1], radius) {
            list[n - 1].y as int
        } else {
            0int
        }
    }
}

/// The average position, rounded toward zero, of vertex `i` and the later vertices near it.
pub open spec fn group_center(list: Seq<Vertex>, i: int, radius: int) -> (int, int) {
    let n = list.len() as int;
    let c = 1 + near_count(list, i, n, radius);
    (
        div_toward_zero(list[i].x + near_sum_x(list, i, n, radius), c),
        div_toward_zero(list[i].y + near_sum_y(list, i, n, radius), c),
    )
}

/// Label `l` borders vertex `i` or one of the vertices after `i` and before `n` that are
/// near it.
pub open spec fn group_has_label(list: Seq<Vertex>, i: int, n: int, l: u32, radius: int) -> bool {
    list[i].borders@.contains(l) || exists|j: int|
        i < j < n && near(list[i], list[j], radius) && (#[trigger] list[j].borders@).contains(l)
}

/// `out` is what `merge_close_vertices` makes of `list`: one vertex per group head, at the
/// group's center, bordering the group's regions in ascending order.
pub open spec fn close_vertices_merged(list: Seq<Vertex>, out: Seq<Vertex>, radius: int) -> bool {
    &&& out.len() == leaders(list, list.len() as int, radius).len()
    &&& forall|k: int|
        0 <= k < out.len() ==> {
            let i = leaders(list, list.len() as int, radius)[k];
            &&& 0 <= i < list.len()
            &&& (#[trigger] out[k]).x as int == group_center(list, i, radius).0
            &&& out[k].y as int == group_center(list, i, radius).1
            &&& sorted_labels(out[k].borders@)
            &&& list[i].borders@.no_duplicates() ==> ascending_labels(out[k].borders@)
            &&& forall|l: u32|
                #[trigger] out[k].borders@.contains(l) <==> group_has_label(list, i, list.len() as int, l, radius)
        }
}

proof fn lemma_near_sums(list: Seq<Vertex>, i: int, n: int, radius: int)
    requires
        0 <= i < list.len(),
        n <= list.len(),
    ensures
        0 <= near_count(list, i, n, radius),
        n > i ==> near_count(list, i, n, radius) < n - i,
        i32::MIN * near_count(list, i, n, radius) <= near_sum_x(list, i, n, radius) <= i32::MAX * near_count(list, i, n, radius),
        i32::MIN * near_count(list, i, n, radius) <= near_sum_y(list, i, n, radius) <= i32::MAX * near_count(list, i, n, radius),
    decreases n - i,
{
    if n > i + 1 {
        lemma_near_sums(list, i, n - 1, radius);
    }
}

proof fn lemma_leaders_bounds(list: Seq<Vertex>, n: int, radius: int)
    requires
        0 <= n,
    ensures
        leaders(list, n, radius).len() <= n,
        forall|k: int| 0 <= k < leaders(list, n, radius).len() ==> 0 <= #[trigger] leaders(list, n, radius)[k] < n,
    decreases n,
{
    if n > 0 {
        lemma_leaders_bounds(list, n - 1, radius);
    }
}

/// Whether the two vertices are near each other.
pub(crate) fn is_near(a: &Vertex, b: &Vertex, radius: i32) -> (r: bool)
    requires
        0 <= radius <= 46340,
    ensures
        r == near(*a, *b, radius as int),
{
    let dx = a.x as i64 - b.x as i64;
    let dy = a.y as i64 - b.y as i64;
    let rr = radius as i64;
    if -rr < dx && dx < rr && -rr < dy && dy < rr {
        assert(dx * dx < rr * rr && dy * dy < rr * rr && dx * dx >= 0 && dy * dy >= 0 && rr * rr <= 46340 * 46340) by (nonlinear_arith)
            requires
                -rr < dx < rr,
                -rr < dy < rr,
                0 <= rr <= 46340,
        ;
        dx * dx + dy * dy < rr * rr
    } else {
        proof {
            assert(dx * dx >= rr * rr || dy * dy >= rr * rr) by (nonlinear_arith)
                requires
                    !(-rr < dx && dx < rr && -rr < dy && dy < rr),
                    rr >= 0,
            ;
            assert(dx * dx >= 0 && dy * dy >= 0) by (nonlinear_arith);
        }
        false
    }
}

/// Adds to `b2` each label of `more` that it lacks, in order.
fn add_missing_labels(b2: &mut Vec<u32>, more: &Vec<u32>)
    ensures
        forall|l: u32| #[trigger] final(b2)@.contains(l) <==> old(b2)@.contains(l) || more@.contains(l),
        final(b2)@.len() <= old(b2)@.len() + more@.len(),
        old(b2)@.no_duplicates() ==> final(b2)@.no_duplicates(),
{
    let mut t: usize = 0;
    while t < more.len()
        invariant
            t <= more@.len(),
            old(b2)@.no_duplicates() ==> b2@.no_duplicates(),
            forall|l: u32| #[trigger] b2@.contains(l) <==> old(b2)@.contains(l) || more@.take(t as int).contains(l),
            b2@.len() <= old(b2)@.len() + t,
        decreases more@.len() - t,
    {
        let m = more[t];
        let ghost before = b2@;
        if !has_label(b2, m) {
            b2.push(m);
        }
        proof {
            assert(more@.take(t + 1) =~= more@.take(t as int).push(m));
            assert forall|l: u32| #[trigger] b2@.contains(l) <==> old(b2)@.contains(l) || more@.take(t + 1).contains(l) by {
                if more@.take(t + 1).contains(l) && !more@.take(t as int).contains(l) {
                    let w = choose|w: int| 0 <= w < t + 1 && #[trigger] more@.take(t + 1)[w] == l;
                    if w < t {
                        assert(more@.take(t as int)[w] == l);
                    }
                    assert(l == m);
                    if !before.contains(m) {
                        assert(b2@[before.len() as int] == m);
                    }
                }
                if b2@.contains(l) && !before.contains(l) {
                    let w = choose|w: int| 0 <= w < b2@.len() && #[trigger] b2@[w] == l;
                    if w < before.len() {
                        assert(before[w] == l);
                    }
                    assert(l == m);
                    assert(more@.take(t + 1)[t as int] == m);
                }
                if before.contains(l) {
                    let w = choose|w: int| 0 <= w < before.len() && #[trigger] before[w] == l;
                    assert(b2@[w] == l);
                }
                if more@.take(t as int).contains(l) {
                    let w = choose|w: int| 0 <= w < t && #[trigger] more@.take(t as int)[w] == l;
                    assert(more@.take(t + 1)[w] == l);
                }
            }
        }
        t = t + 1;
    }
    proof {
        assert(more@.take(more@.len() as int) =~= more@);
    }
}

/// Merges vertices that lie closer than `radius`. Going through the list in order, each
/// vertex that is not near an earlier kept vertex is kept and absorbs every later vertex near
/// it (whether or not that one was absorbed before): the merged vertex lies at their average
/// position (rounded toward zero) and borders every region any of them borders, in ascending
/// order.
pub fn merge_within(list: &Vec<Vertex>, radius: i32) -> (r: Vec<Vertex>)
    requires
        list@.len() <= i32::MAX,
        0 <= radius <= 46340,
    ensures
        close_vertices_merged(list@, r@, radius as int),
{
    let n = list.len();
    let mut done: Vec<bool> = Vec::new();
    let mut z: usize = 0;
    while z < n
        invariant
            z <= n,
            done@.len() == z,
            forall|q: int| 0 <= q < z ==> !(#[trigger] done@[q]),
        decreases n - z,
    {
        done.push(false);
        z = z + 1;
    }
    let mut out: Vec<Vertex> = Vec::new();
    let mut i: usize = 0;
    while i < n
        invariant
            n == list@.len(),
            n <= i32::MAX,
            0 <= radius <= 46340,
            i <= n,
            done@.len() == n,
            out@.len() == leaders(list@, i as int, radius as int).len(),
            forall|q: int|
                i <= q < n ==> (#[trigger] done@[q] <==> exists|k: int|
                    0 <= k < leaders(list@, i as int, radius as int).len() && near(
                        list@[#[trigger] leaders(list@, i as int, radius as int)[k]],
                        list@[q],
                    radius as int,
                    )),
            forall|k: int|
                0 <= k < out@.len() ==> {
                    let m = leaders(list@, i as int, radius as int)[k];
                    &&& 0 <= m < i
                    &&& (#[trigger] out@[k]).x as int == group_center(list@, m, radius as int).0
                    &&& out@[k].y as int == group_center(list@, m, radius as int).1
                    &&& sorted_labels(out@[k].borders@)
                    &&& list@[m].borders@.no_duplicates() ==> ascending_labels(out@[k].borders@)
                    &&& forall|l: u32|
                        #[trigger] out@[k].borders@.contains(l) <==> group_has_label(list@, m, n as int, l, radius as int)
                },
        decreases n - i,
    {
        let ghost p = leaders(list@, i as int, radius as int);
        proof {
            lemma_leaders_bounds(list@, i + 1, radius as int);
            lemma_leaders_bounds(list@, i as int, radius as int);
        }
        if done[i] {
            proof {
                assert(leaders(list@, i + 1, radius as int) == p);
                assert forall|q: int| i + 1 <= q < n implies (#[trigger] done@[q] <==> exists|k: int|
                    0 <= k < leaders(list@, i + 1, radius as int).len() && near(
                        list@[#[trigger] leaders(list@, i + 1, radius as int)[k]],
                        list@[q],
                    radius as int,
                    )) by {}
            }
        } else {
            let ghost done0 = done@;
            let ax = list[i].x;
            let ay = list[i].y;
            let mut sx: i64 = ax as i64;
            let mut sy: i64 = ay as i64;
            let mut cnt: i64 = 1;
            let mut b2 = copy_labels(&list[i].borders);
            let mut j: usize = i + 1;
            while j < n
                invariant
                    n == list@.len(),
                    n <= i32::MAX,
                    0 <= radius <= 46340,
                    i < j <= n,
                    done@.len() == n,
                    ax == list@[i as int].x,
                    ay == list@[i as int].y,
                    cnt == 1 + near_count(list@, i as int, j as int, radius as int),
                    sx == ax + near_sum_x(list@, i as int, j as int, radius as int),
                    sy == ay + near_sum_y(list@, i as int, j as int, radius as int),
                    forall|q: int| 0 <= q <= i ==> done@[q] == done0[q],
                    forall|q: int| j <= q < n ==> done@[q] == done0[q],
                    forall|q: int|
                        i < q < j ==> (#[trigger] done@[q] <==> done0[q] || near(list@[i as int], list@[q], radius as int)),
                    forall|l: u32|
                        #[trigger] b2@.contains(l) <==> group_has_label(list@, i as int, j as int, l, radius as int),
                    list@[i as int].borders@.no_duplicates() ==> b2@.no_duplicates(),
                decreases n - j,
            {
                proof {
                    lemma_near_sums(list@, i as int, j as int, radius as int);
                    assert(i32::MAX * near_count(list@, i as int, j as int, radius as int) <= i32::MAX * (i32::MAX as int)) by (nonlinear_arith)
                        requires
                            0 <= near_count(list@, i as int, j as int, radius as int) <= i32::MAX,
                    ;
                    assert(i32::MIN * near_count(list@, i as int, j as int, radius as int) >= i32::MIN * (i32::MAX as int)) by (nonlinear_arith)
                        requires
                            0 <= near_count(list@, i as int, j as int, radius as int) <= i32::MAX,
                    ;
                }
                let ghost b_before = b2@;
                if is_near(&list[i], &list[j], radius) {
                    sx = sx + list[j].x as i64;
                    sy = sy + list[j].y as i64;
                    cnt = cnt + 1;
                    add_missing_labels(&mut b2, &list[j].borders);
                    done.set(j, true);
                }
                proof {
                    assert forall|l: u32| #[trigger] b2@.contains(l) <==> group_has_label(list@, i as int, j + 1, l, radius as int) by {
                        if group_has_label(list@, i as int, j + 1, l, radius as int) && !list@[i as int].borders@.contains(l) {
                            let w = choose|w: int|
                                i < w < j + 1 && near(list@[i as int], list@[w], radius as int) && (#[trigger] list@[w].borders@).contains(l);
                            if w < j {
                                assert(group_has_label(list@, i as int, j as int, l, radius as int));
                            }
                        }
                        if group_has_label(list@, i as int, j as int, l, radius as int) && !list@[i as int].borders@.contains(l) {
                            let w = choose|w: int|
                                i < w < j && near(list@[i as int], list@[w], radius as int) && (#[trigger] list@[w].borders@).contains(l);
                            assert(group_has_label(list@, i as int, j + 1, l, radius as int));
                        }
                    }
                }
                j = j + 1;
            }
            proof {
                lemma_near_sums(list@, i as int, n as int, radius as int);
                lemma_average_fits(sx as int, cnt as int);
                lemma_average_fits(sy as int, cnt as int);
            }
            let ghost unsorted = b2@;
            sort_labels(&mut b2);
            proof {
                unsorted.to_multiset_ensures();
                b2@.to_multiset_ensures();
                assert forall|l: u32| #[trigger] b2@.contains(l) <==> unsorted.contains(l) by {
                    assert(b2@.to_multiset().count(l) == unsorted.to_multiset().count(l));
                }
            }
            out.push(Vertex { x: (sx / cnt) as i32, y: (sy / cnt) as i32, borders: b2 });
            proof {
                let q = leaders(list@, i + 1, radius as int);
                assert(!exists|k: int| 0 <= k < p.len() && near(list@[#[trigger] p[k]], list@[i as int], radius as int)) by {
                    assert(!done0[i as int]);
                }
                assert(q == p.push(i as int));
                assert forall|k: int| 0 <= k < out@.len() implies {
                    let m = leaders(list@, i + 1, radius as int)[k];
                    &&& 0 <= m < i + 1
                    &&& (#[trigger] out@[k]).x as int == group_center(list@, m, radius as int).0
                    &&& out@[k].y as int == group_center(list@, m, radius as int).1
                    &&& sorted_labels(out@[k].borders@)
                    &&& list@[m].borders@.no_duplicates() ==> ascending_labels(out@[k].borders@)
                    &&& forall|l: u32|
                        #[trigger] out@[k].borders@.contains(l) <==> group_has_label(list@, m, n as int, l, radius as int)
                } by {
                    if k < p.len() {
                        assert(q[k] == p[k]);
                    }
                }
                assert forall|qq: int| i + 1 <= qq < n implies (#[trigger] done@[qq] <==> exists|k: int|
                    0 <= k < q.len() && near(list@[#[trigger] q[k]], list@[qq], radius as int)) by {
                    if near(list@[i as int], list@[qq], radius as int) {
                        assert(q[p.len() as int] == i);
                    }
                    if exists|k: int| 0 <= k < q.len() && near(list@[#[trigger] q[k]], list@[qq], radius as int) {
                        let k = choose|k: int| 0 <= k < q.len() && near(list@[#[trigger] q[k]], list@[qq], radius as int);
                        if k < p.len() {
                            assert(q[k] == p[k]);
                        }
                    }
                    if exists|k: int| 0 <= k < p.len() && near(list@[#[trigger] p[k]], list@[qq], radius as int) {
                        let k = choose|k: int| 0 <= k < p.len() && near(list@[#[trigger] p[k]], list@[qq], radius as int);
                        assert(q[k] == p[k]);
                    }
                }
            }
        }
        i = i + 1;
    }
    proof {
        lemma_leaders_bounds(list@, n as int, radius as int);
    }
    out
}

/// Merges vertices that lie closer than 4 to one another; see `merge_within`.
pub fn merge_close_vertices(list: &Vec<Vertex>) -> (r: Vec<Vertex>)
    requires
        list@.len() <= i32::MAX,
    ensures
        close_vertices_merged(list@, r@, 4),
{
    merge_within(list, 4)
}

/// `s` is the list of grid vertices that `find_vertices` produces: every cell around which
/// more than two regions meet, in row-major order, with those regions.
pub open spec fn grid_vertices(vor: &Voronoi, s: Seq<Vertex>) -> bool {
    &&& forall|k: int|
        #![trigger s[k]]
        0 <= k < s.len() ==> {
            &&& in_grid(vor.width as int, vor.height as int, s[k].x as int, s[k].y as int)
            &&& s[k].borders@ == kinds_at(vor, s[k].x as int, s[k].y as int)
            &&& s[k].borders@.len() > 2
        }
    &&& forall|k1: int, k2: int|
        #![trigger s[k1], s[k2]]
        0 <= k1 < k2 < s.len() ==> before_in_rows(s[k1].x as int, s[k1].y as int, s[k2].x as int, s[k2].y as int)
    &&& forall|x: int, y: int|
        in_grid(vor.width as int, vor.height as int, x, y) && #[trigger] kinds_at(vor, x, y).len() > 2 ==> exists|k: int|
            0 <= k < s.len() && s[k].x == x && s[k].y == y
}

/// `out` is `list` with the borders of each vertex in ascending order.
pub open spec fn borders_sorted_from(list: Seq<Vertex>, out: Seq<Vertex>) -> bool {
    &&& out.len() == list.len()
    &&& forall|k: int|
        0 <= k < out.len() ==> {
            &&& (#[trigger] out[k]).x == list[k].x
            &&& out[k].y == list[k].y
            &&& sorted_copy_of(out[k].borders@, list[k].borders@)
        }
}

/// Some cell of the grid holds label `l`.
pub open spec fn label_present(vor: &Voronoi, l: u32) -> bool {
    exists|i: int| 0 <= i < vor.data@.len() && vor.data@[i] == l
}

/// Every label on the borders of the vertices is held by some cell of the grid.
pub open spec fn labels_present(vor: &Voronoi, s: Seq<Vertex>) -> bool {
    forall|k: int, l: u32| 0 <= k < s.len() && #[trigger] s[k].borders@.contains(l) ==> label_present(vor, l)
}

proof fn lemma_distinct_nonzero_unique(s: Seq<u32>)
    ensures
        distinct_nonzero(s).no_duplicates(),
    decreases s.len(),
{
    if s.len() > 0 {
        lemma_distinct_nonzero_unique(s.drop_last());
    }
}

proof fn lemma_distinct_nonzero_from(s: Seq<u32>, l: u32)
    requires
        distinct_nonzero(s).contains(l),
    ensures
        l != 0,
        s.contains(l),
    decreases s.len(),
{
    if s.len() > 0 {
        let p = distinct_nonzero(s.drop_last());
        if p.contains(l) {
            lemma_distinct_nonzero_from(s.drop_last(), l);
            let w = choose|w: int| 0 <= w < s.drop_last().len() && s.drop_last()[w] == l;
            assert(s[w] == l);
        } else {
            assert(l == s.last());
            assert(s[s.len() - 1] == l);
        }
    }
}

proof fn lemma_grid_labels_present(vor: &Voronoi, s: Seq<Vertex>)
    requires
        vor.wf(),
        grid_vertices(vor, s),
    ensures
        labels_present(vor, s),
{
    assert forall|k: int, l: u32| 0 <= k < s.len() && #[trigger] s[k].borders@.contains(l) implies label_present(
        vor,
        l,
    ) by {
        let x = s[k].x as int;
        let y = s[k].y as int;
        lemma_distinct_nonzero_from(neighbor_labels(vor, x, y), l);
        let w = choose|w: int| 0 <= w < neighbor_labels(vor, x, y).len() && neighbor_labels(vor, x, y)[w] == l;
        let o = plus_offsets()[w];
        assert(vor.cell(x + o.0, y + o.1) == l);
        assert(in_grid(vor.width as int, vor.height as int, x + o.0, y + o.1));
        lemma_index_in_grid(vor.width as int, vor.height as int, x + o.0, y + o.1);
        assert(vor.data@[(y + o.1) * vor.width + (x + o.0)] == l);
    }
}

proof fn lemma_multiset_contains(a: Seq<u32>, b: Seq<u32>, l: u32)
    requires
        a.to_multiset() == b.to_multiset(),
    ensures
        a.contains(l) <==> b.contains(l),
{
    a.to_multiset_ensures();
    b.to_multiset_ensures();
    assert(a.to_multiset().count(l) == b.to_multiset().count(l));
    assert(a.contains(l) <==> a.to_multiset().count(l) > 0);
    assert(b.contains(l) <==> b.to_multiset().count(l) > 0);
}

/// A copy of the vertices with the borders of each in ascending order.
pub fn sort_vertex_borders(list: &Vec<Vertex>) -> (r: Vec<Vertex>)
    ensures
        borders_sorted_from(list@, r@),
{
    let mut out: Vec<Vertex> = Vec::new();
    let mut i: usize = 0;
    while i < list.len()
        invariant
            i <= list@.len(),
            out@.len() == i,
            forall|k: int|
                0 <= k < i ==> {
                    &&& (#[trigger] out@[k]).x == list@[k].x
                    &&& out@[k].y == list@[k].y
                    &&& sorted_copy_of(out@[k].borders@, list@[k].borders@)
                },
        decreases list@.len() - i,
    {
        let mut b = copy_labels(&list[i].borders);
        sort_labels(&mut b);
        out.push(Vertex { x: list[i].x, y: list[i].y, borders: b });
        i = i + 1;
    }
    out
}

/// `vertices` are the grid's vertices with sorted borders, merged first by equal borders and
/// then by closeness; `regions` maps each label present in the grid to its cells in row-major
/// order and the merged vertices on its border, in order.
pub open spec fn city_vertices(vor: &Voronoi, vertices: Seq<Vertex>, regions: Map<u32, PointCollection>) -> bool {
    &&& exists|found: Seq<Vertex>, sorted: Seq<Vertex>, same: Seq<Vertex>|
        #![trigger grid_vertices(vor, found), borders_sorted_from(found, sorted), same_borders_merged(sorted, same)]
        grid_vertices(vor, found) && borders_sorted_from(found, sorted) && same_borders_merged(sorted, same)
            && close_vertices_merged(same, vertices, 4)
    &&& forall|k: int| 0 <= k < vertices.len() ==> ascending_labels((#[trigger] vertices[k]).borders@)
    &&& forall|l: u32| #[trigger] regions.contains_key(l) <==> label_present(vor, l)
    &&& forall|l: u32|
        #[trigger] regions.contains_key(l) ==> regions[l].points@ == label_cells(vor, l, vor.data@.len() as int)
            && same_vertices(regions[l].vertices@, vertices_on(vertices, l, vertices.len() as int))
}

/// Finds the vertices of the grid and groups its cells by region: the vertices where more
/// than two regions meet, with their borders in ascending order, merged first by equal
/// borders and then by closeness; and for each label present in the grid, its cells in
/// row-major order and the merged vertices on its border (each once per time the label
/// occurs in the vertex's borders), in order.
pub fn calculate_vertices(vor: &Voronoi) -> (r: (Vec<Vertex>, HashMap<u32, PointCollection>))
    requires
        vor.wf(),
        has_margin(vor),
    ensures
        city_vertices(vor, r.0@, r.1@),
{
    let mut regions = collect_points(vor);
    let found = find_vertices(vor);
    let sorted = sort_vertex_borders(&found);
    let same = merge_same_borders(&sorted);
    proof {
        lemma_kept_same_bounds(sorted@, sorted@.len() as int);
    }
    let close = merge_close_vertices(&same);
    proof {
        assert(grid_vertices(vor, found@));
        lemma_grid_labels_present(vor, found@);
        assert(labels_present(vor, sorted@)) by {
            assert forall|k: int, l: u32| 0 <= k < sorted@.len() && #[trigger] sorted@[k].borders@.contains(l) implies label_present(
                vor,
                l,
            ) by {
                lemma_multiset_contains(sorted@[k].borders@, found@[k].borders@, l);
                assert(found@[k].borders@.contains(l));
            }
        }
        assert(labels_present(vor, same@)) by {
            assert forall|k: int, l: u32| 0 <= k < same@.len() && #[trigger] same@[k].borders@.contains(l) implies label_present(
                vor,
                l,
            ) by {
                let i = kept_same(sorted@, sorted@.len() as int)[k];
                lemma_multiset_contains(same@[k].borders@, sorted@[i].borders@, l);
                assert(sorted@[i].borders@.contains(l));
            }
        }
        assert(labels_present(vor, close@)) by {
            assert forall|k: int, l: u32| 0 <= k < close@.len() && #[trigger] close@[k].borders@.contains(l) implies label_present(
                vor,
                l,
            ) by {
                let i = leaders(same@, same@.len() as int, 4)[k];
                assert(group_has_label(same@, i, same@.len() as int, l, 4));
                if !same@[i].borders@.contains(l) {
                    let j = choose|j: int|
                        i < j < same@.len() && near(same@[i], same@[j], 4) && (#[trigger] same@[j].borders@).contains(l);
                    assert(same@[j].borders@.contains(l));
                }
            }
        }
        assert forall|k: int| 0 <= k < close@.len() implies ascending_labels((#[trigger] close@[k]).borders@) by {
            let i = leaders(same@, same@.len() as int, 4)[k];
            assert(close_vertices_merged(same@, close@, 4));
            assert(close@.len() == leaders(same@, same@.len() as int, 4).len());
            let v = close@[k];
            assert(v.x as int == group_center(same@, i, 4).0);
            assert(0 <= i < same@.len());
            let m = kept_same(sorted@, sorted@.len() as int)[i];
            assert(0 <= m < sorted@.len() && same@[i].x as int == border_center(sorted@, sorted@[m].borders@).0);
            assert(sorted_copy_of(same@[i].borders@, sorted@[m].borders@));
            assert(sorted@[m].x == found@[m].x && sorted_copy_of(sorted@[m].borders@, found@[m].borders@));
            assert(found@[m].borders@ == kinds_at(vor, found@[m].x as int, found@[m].y as int));
            lemma_distinct_nonzero_unique(neighbor_labels(vor, found@[m].x as int, found@[m].y as int));
            assert(found@[m].borders@.no_duplicates());
            lemma_no_duplicates_same_multiset(sorted@[m].borders@, found@[m].borders@);
            lemma_no_duplicates_same_multiset(same@[i].borders@, sorted@[m].borders@);
        }
        assert forall|i: int, j: int|
            0 <= i < close@.len() && 0 <= j < close@[i].borders@.len() implies regions@.contains_key(
                #[trigger] close@[i].borders@[j],
            ) by {
            assert(close@[i].borders@.contains(close@[i].borders@[j]));
            assert(label_present(vor, close@[i].borders@[j]));
        }
    }
    let ghost before = regions@;
    attach_vertices(&close, &mut regions);
    proof {
        assert forall|l: u32| #[trigger] regions@.contains_key(l) implies regions@[l].points@ == label_cells(
            vor,
            l,
            vor.data@.len() as int,
        ) && same_vertices(regions@[l].vertices@, vertices_on(close@, l, close@.len() as int)) by {
            assert(before.contains_key(l));
            assert(before[l].vertices@ + vertices_on(close@, l, close@.len() as int) =~= vertices_on(
                close@,
                l,
                close@.len() as int,
            ));
        }
    }
    (close, regions)
}

} // verus!
