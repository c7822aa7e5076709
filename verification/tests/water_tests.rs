use citygen::water::{Direction, WaterGenerationRequest};

#[test]
fn as_vec_points_toward_each_side() {
    assert_eq!(Direction::North.as_vec(), (0, -1));
    assert_eq!(Direction::South.as_vec(), (0, 1));
    assert_eq!(Direction::East.as_vec(), (1, 0));
    assert_eq!(Direction::West.as_vec(), (-1, 0));
}

#[test]
fn water_requests_carry_their_side() {
    let r = WaterGenerationRequest::River { dir: Direction::East };
    match r {
        WaterGenerationRequest::River { dir } => assert_eq!(dir, Direction::East),
        _ => panic!("wrong kind"),
    }
    assert_ne!(Direction::North, Direction::South);
}
