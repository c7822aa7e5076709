use citygen::buildings::{
    assign_nearest, attach_vertices, border_kinds, collect_points, expand_borders_for,
    find_vertices, isqrt, mask_bounds, new_voronoi, sort_labels, Vertex, Voronoi,
};
use citygen::subdivide::{generate_voronoi, masked_subdivide, setup_city_collection, split_region, subdivide_voronoi, Lattice};
use citygen::vertices::{calculate_vertices, merge_close_vertices, merge_same_borders, sort_vertex_borders};

fn grid(width: i32, height: i32, f: impl Fn(i32, i32) -> u32) -> Voronoi {
    let mut data = Vec::new();
    for y in 0..height {
        for x in 0..width {
            data.push(f(x, y));
        }
    }
    Voronoi { next_idx: 100, height, width, data, point_set: Vec::new() }
}

fn vertex(x: i32, y: i32, borders: Vec<u32>) -> Vertex {
    Vertex { x, y, borders }
}

fn flat(v: &[Vertex]) -> Vec<(i32, i32, Vec<u32>)> {
    v.iter().map(|v| (v.x, v.y, v.borders.clone())).collect()
}

/// Places lattice points at the middle of each lattice cell, unturned.
fn middle(l: &Lattice, i: i32, j: i32) -> (i32, i32) {
    (l.min_x + j * l.delta_x + l.delta_x / 2, l.min_y + i * l.delta_y + l.delta_y / 2)
}

#[test]
fn isqrt_rounds_down() {
    assert_eq!(isqrt(0), 0);
    assert_eq!(isqrt(15), 3);
    assert_eq!(isqrt(16), 4);
    assert_eq!(isqrt(17), 4);
    assert_eq!(isqrt(i32::MAX), 46340);
}

#[test]
fn voronoi_get_set_and_labels() {
    let mut v = new_voronoi(3, 2);
    assert_eq!(v.data, vec![0; 6]);
    assert_eq!(v.next_idx, 1);
    v.set(2, 1, 7);
    v.set(3, 1, 9);
    v.set(-1, 0, 9);
    assert_eq!(v.get(2, 1), 7);
    assert_eq!(v.get(3, 1), 0);
    assert_eq!(v.get(0, -1), 0);
    assert_eq!(v.data, vec![0, 0, 0, 0, 0, 7]);
    assert_eq!(v.alloc_point(), 1);
    assert_eq!(v.alloc_point(), 2);
    assert_eq!(v.next_idx, 3);
}

#[test]
fn expand_borders_clears_cells_next_to_other_regions() {
    let mut v = grid(4, 1, |x, _| if x < 2 { 1 } else { 2 });
    expand_borders_for(&mut v, 1, 1);
    assert_eq!(v.data, vec![1, 0, 2, 2]);
    let mut w = grid(5, 1, |x, _| if x < 2 { 1 } else if x == 2 { 0 } else { 2 });
    expand_borders_for(&mut w, 1, 1);
    assert_eq!(w.data, vec![1, 1, 0, 2, 2]);
    expand_borders_for(&mut w, 1, 2);
    assert_eq!(w.data, vec![1, 0, 0, 2, 2]);
}

#[test]
fn mask_bounds_finds_the_box() {
    let v = grid(5, 4, |x, y| if (1..=3).contains(&x) && (y == 1 || y == 2) && x + y != 5 { 7 } else { 0 });
    assert_eq!(mask_bounds(&v, 7), (1, 1, 3, 2));
    assert_eq!(mask_bounds(&v, 8), (5, 4, 0, 0));
}

#[test]
fn assign_nearest_gives_ties_to_the_last_point() {
    let mut v = grid(5, 1, |_, _| 7);
    let points = [((0, 0), 10u32), ((4, 0), 20u32)];
    assign_nearest(&mut v, 7, 0, 0, 4, 0, &points);
    assert_eq!(v.data, vec![10, 10, 20, 20, 20]);
    let mut w = grid(5, 1, |x, _| if x == 1 { 3 } else { 7 });
    assign_nearest(&mut w, 7, 0, 0, 3, 0, &points);
    assert_eq!(w.data, vec![10, 3, 20, 20, 7]);
}

#[test]
fn border_kinds_scans_the_plus() {
    let v = grid(6, 6, |x, y| if y >= 3 { 3 } else if x < 3 { 1 } else { 2 });
    assert_eq!(border_kinds(&v, 1, 1), vec![1, 2, 3]);
    assert_eq!(border_kinds(&v, 3, 1), vec![2, 1, 3]);
    assert_eq!(border_kinds(&v, 1, 3), vec![1, 3]);
    assert_eq!(border_kinds(&v, 0, 5), vec![3]);
}

#[test]
fn find_vertices_lists_cells_where_three_regions_meet() {
    let v = grid(6, 6, |x, y| if y >= 3 { 3 } else if x < 3 { 1 } else { 2 });
    let found = find_vertices(&v);
    let positions: Vec<(i32, i32)> = found.iter().map(|v| (v.x, v.y)).collect();
    assert_eq!(positions, vec![(1, 1), (2, 1), (3, 1), (4, 1), (1, 2), (2, 2), (3, 2), (4, 2)]);
    assert_eq!(found[2].borders, vec![2, 1, 3]);
    let sorted = sort_vertex_borders(&found);
    assert_eq!(sorted[2].borders, vec![1, 2, 3]);
    let same = merge_same_borders(&sorted);
    assert_eq!(flat(&same), vec![(2, 1, vec![1, 2, 3])]);
}

#[test]
fn sort_labels_orders_ascending() {
    let mut v = vec![5, 1, 4, 1, 3];
    sort_labels(&mut v);
    assert_eq!(v, vec![1, 1, 3, 4, 5]);
}

#[test]
fn merge_same_borders_drops_a_repeated_center() {
    let list = vec![
        vertex(0, 0, vec![2, 1]),
        vertex(4, 4, vec![1, 2]),
        vertex(2, 2, vec![3, 4]),
        vertex(-3, 1, vec![5]),
        vertex(-4, 1, vec![5]),
    ];
    let merged = merge_same_borders(&list);
    assert_eq!(flat(&merged), vec![(0, 0, vec![1, 2]), (4, 4, vec![1, 2]), (2, 2, vec![3, 4]), (-3, 1, vec![5])]);
    let same = vec![vertex(0, 0, vec![1]), vertex(4, 4, vec![1]), vertex(2, 2, vec![2])];
    assert_eq!(flat(&merge_same_borders(&same)), vec![(2, 2, vec![1])]);
}

#[test]
fn merge_close_vertices_groups_by_the_first_kept() {
    let list = vec![vertex(0, 0, vec![3, 1]), vertex(5, 0, vec![2]), vertex(3, 0, vec![4, 1])];
    let merged = merge_close_vertices(&list);
    assert_eq!(flat(&merged), vec![(1, 0, vec![1, 3, 4]), (4, 0, vec![1, 2, 4])]);
    let far = vec![vertex(0, 0, vec![1]), vertex(4, 0, vec![2]), vertex(2, 3, vec![3])];
    assert_eq!(flat(&merge_close_vertices(&far)), vec![(1, 1, vec![1, 3]), (3, 1, vec![2, 3])]);
}

#[test]
fn collect_and_attach_group_cells_by_region() {
    let v = grid(3, 2, |x, y| if y == 0 { 1 } else if x == 0 { 2 } else { 0 });
    let mut regions = collect_points(&v);
    assert_eq!(regions.len(), 3);
    assert_eq!(regions[&1].points, vec![(0, 0), (1, 0), (2, 0)]);
    assert_eq!(regions[&2].points, vec![(0, 1)]);
    assert_eq!(regions[&0].points, vec![(1, 1), (2, 1)]);
    let list = vec![vertex(1, 1, vec![1, 2]), vertex(2, 1, vec![1, 1])];
    attach_vertices(&list, &mut regions);
    assert_eq!(flat(&regions[&1].vertices), vec![(1, 1, vec![1, 2]), (2, 1, vec![1, 1]), (2, 1, vec![1, 1])]);
    assert_eq!(flat(&regions[&2].vertices), vec![(1, 1, vec![1, 2])]);
    assert!(regions[&0].vertices.is_empty());
}

#[test]
fn calculate_vertices_on_four_quadrants() {
    let v = grid(12, 12, |x, y| if y < 6 { if x < 6 { 1 } else { 2 } } else if x < 6 { 3 } else { 4 });
    let (vertices, regions) = calculate_vertices(&v);
    assert_eq!(flat(&vertices), vec![(5, 5, vec![1, 2, 3, 4])]);
    assert_eq!(regions.len(), 4);
    for l in 1..=4u32 {
        assert_eq!(regions[&l].points.len(), 36);
        assert_eq!(flat(&regions[&l].vertices), vec![(5, 5, vec![1, 2, 3, 4])]);
    }
    assert_eq!(regions[&2].points[0], (6, 0));
}

#[test]
fn masked_subdivide_splits_a_region() {
    let mut v = grid(20, 20, |x, _| if x < 10 { 5 } else { 6 });
    v.next_idx = 10;
    let labels = masked_subdivide(5, &mut v, 2, &middle);
    assert_eq!(labels, (10..26).collect::<Vec<u32>>());
    assert_eq!(v.next_idx, 26);
    assert!(v.data.iter().all(|&c| c != 5));
    assert_eq!(v.get(15, 3), 6);
    let small = masked_subdivide(6, &mut v, 4, &middle);
    assert!(small.is_empty());
    assert_eq!(v.next_idx, 26);
}

#[test]
fn subdivide_voronoi_splits_and_clears_borders() {
    let mut v = new_voronoi(40, 40);
    subdivide_voronoi(&mut v, 0, 1, false, &middle);
    assert!(v.next_idx > 1 + 36);
    assert!(v.data.iter().any(|&c| c == 0));
    assert!(v.data.iter().all(|&c| c < v.next_idx));
}

#[test]
fn generate_voronoi_and_city_collection() {
    let v = generate_voronoi(180, 180, &middle);
    assert_eq!(v.width, 180);
    assert!(v.point_set.is_empty());
    assert!(v.next_idx > 9);
    assert!(v.data.iter().all(|&c| c < v.next_idx));
    let cc = setup_city_collection(180, 180, &middle);
    assert_eq!(cc.point_count, cc.vor.next_idx);
    for (label, region) in &cc.collections {
        assert!(*label < cc.point_count);
        for p in &region.points {
            assert_eq!(cc.vor.get(p.0, p.1), *label);
        }
    }
    for vert in &cc.vertices {
        assert!(vert.borders.windows(2).all(|w| w[0] < w[1]));
    }
}

#[test]
fn masked_subdivide_with_negative_step_leaves_a_present_region() {
    let mut v = grid(20, 20, |x, _| if x < 10 { 5 } else { 6 });
    v.next_idx = 10;
    let labels = masked_subdivide(5, &mut v, -3, &middle);
    assert!(labels.is_empty());
    assert_eq!(v.next_idx, 10);
    assert_eq!(v.get(3, 3), 5);
}

#[test]
fn merge_close_vertices_keeps_labels_once() {
    let list = vec![vertex(0, 0, vec![1, 2, 3]), vertex(1, 1, vec![3, 2, 4])];
    let merged = merge_close_vertices(&list);
    assert_eq!(flat(&merged), vec![(0, 0, vec![1, 2, 3, 4])]);
}

#[test]
fn split_region_with_a_given_turn_relabels_the_region() {
    let mut v = grid(20, 20, |x, _| if x < 10 { 5 } else { 6 });
    v.next_idx = 10;
    let b = mask_bounds(&v, 5);
    assert_eq!(b, (0, 0, 9, 19));
    let labels = split_region(5, &mut v, b, 2, 0, &middle);
    assert_eq!(labels, (10..26).collect::<Vec<u32>>());
    assert_eq!(v.next_idx, 26);
    assert!(v.data.iter().all(|&c| c != 5));
    assert_eq!(v.get(15, 3), 6);
}

#[test]
fn voronoi_with_negative_sides_reads_zero_and_ignores_writes() {
    let mut v = Voronoi { next_idx: 1, width: -2, height: -3, data: vec![4; 6], point_set: vec![] };
    assert_eq!(v.get(0, 0), 0);
    v.set(0, 0, 5);
    assert_eq!(v.data, vec![4; 6]);
}
