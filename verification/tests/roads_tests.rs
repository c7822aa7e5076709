use citygen::roads::{starting_points, trace_roads};

fn rightward(width: i32) -> impl Fn(i32, i32, bool) -> Option<(i32, i32)> {
    move |x: i32, _y: i32, _par: bool| if x + 1 < width { Some((1, 0)) } else { None }
}

#[test]
fn starting_points_one_per_block() {
    let s = starting_points(20, 17);
    assert_eq!(s.len(), 4);
    for (i, &(x, y)) in s.iter().enumerate() {
        let bx = (i / 2) as i32;
        let by = (i % 2) as i32;
        assert!(x >= bx * 8 && x < bx * 8 + 8);
        assert!(y >= by * 8 && y < by * 8 + 8);
    }
}

#[test]
fn trace_roads_keeps_a_long_walk_and_marks_it() {
    let step = rightward(20);
    let (paths, hits) = trace_roads(20, 10, vec![(0, 3)], &step);
    assert_eq!(paths.len(), 1);
    assert_eq!(paths[0], (0..20).map(|x| (x, 3)).collect::<Vec<(i32, i32)>>());
    assert_eq!(hits.width(), 20);
    assert_eq!(hits.height(), 10);
    assert!(*hits.get_at(5, 3));
    assert!(*hits.get_at(19, 3));
    assert!(!*hits.get_at(5, 4));
}

#[test]
fn trace_roads_undoes_a_short_walk() {
    let step = rightward(5);
    let (paths, hits) = trace_roads(5, 5, vec![(0, 0)], &step);
    assert!(paths.is_empty());
    assert!(hits.data().iter().all(|&b| !b));
}
