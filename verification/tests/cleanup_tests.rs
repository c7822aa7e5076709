use citygen::buildings::{Vertex, Voronoi};
use citygen::cleanup::{merge_around, outline_degenerate, touches_cleared};
use citygen::vertices::merge_within;

fn vertex(x: i32, y: i32, borders: Vec<u32>) -> Vertex {
    Vertex { x, y, borders }
}

fn flat(v: &[Vertex]) -> Vec<(i32, i32, Vec<u32>)> {
    v.iter().map(|v| (v.x, v.y, v.borders.clone())).collect()
}

fn filled(width: i32, height: i32, hole: Option<(i32, i32)>) -> Voronoi {
    let mut data = vec![1u32; (width * height) as usize];
    if let Some((x, y)) = hole {
        data[(y * width + x) as usize] = 0;
    }
    Voronoi { next_idx: 2, height, width, data, point_set: Vec::new() }
}

#[test]
fn merge_around_skips_absorbed_positions() {
    let list = vec![
        vertex(0, 0, vec![1]),
        vertex(2, 0, vec![2]),
        vertex(10, 0, vec![3]),
        vertex(3, 0, vec![4]),
    ];
    assert_eq!(flat(&merge_around(&list)), vec![(1, 0, vec![1, 2, 4]), (10, 0, vec![3])]);
}

#[test]
fn merge_around_counts_earlier_neighbours_too() {
    let list = vec![vertex(0, 0, vec![5]), vertex(9, 0, vec![6]), vertex(11, 0, vec![7])];
    // The second absorbs the third; the third's position is then skipped.
    assert_eq!(flat(&merge_around(&list)), vec![(0, 0, vec![5]), (10, 0, vec![6, 7])]);
}

#[test]
fn merge_within_eight() {
    let list = vec![vertex(0, 0, vec![2]), vertex(7, 0, vec![1]), vertex(14, 0, vec![3])];
    assert_eq!(flat(&merge_within(&list, 8)), vec![(3, 0, vec![1, 2]), (14, 0, vec![3])]);
}

#[test]
fn touches_cleared_finds_zero_or_edge_cells() {
    let full = filled(10, 10, None);
    assert!(!touches_cleared(&full, 5, 5));
    assert!(!touches_cleared(&full, 2, 2));
    assert!(touches_cleared(&full, 1, 5));
    assert!(touches_cleared(&full, 8, 5));
    let holed = filled(10, 10, Some((6, 7)));
    assert!(touches_cleared(&holed, 5, 5));
    assert!(!touches_cleared(&holed, 3, 3));
}

#[test]
fn outline_degenerate_checks_each_rule() {
    let square = vec![vertex(0, 0, vec![]), vertex(20, 0, vec![]), vertex(20, 20, vec![]), vertex(0, 20, vec![])];
    assert!(!outline_degenerate(&square, 500));
    assert!(outline_degenerate(&square, 300));
    assert!(outline_degenerate(&square, 5000));
    let long = vec![vertex(0, 0, vec![]), vertex(50, 0, vec![]), vertex(50, 20, vec![]), vertex(0, 20, vec![])];
    assert!(outline_degenerate(&long, 500));
    let crowded = vec![vertex(0, 0, vec![]), vertex(20, 0, vec![]), vertex(5, 5, vec![]), vertex(0, 20, vec![])];
    assert!(outline_degenerate(&crowded, 500));
    let triangle = vec![vertex(0, 0, vec![]), vertex(20, 0, vec![]), vertex(0, 20, vec![])];
    assert!(outline_degenerate(&triangle, 500));
    let edge_of_forty = vec![vertex(0, 0, vec![]), vertex(40, 0, vec![]), vertex(40, 20, vec![]), vertex(0, 20, vec![])];
    assert!(!outline_degenerate(&edge_of_forty, 500));
}
