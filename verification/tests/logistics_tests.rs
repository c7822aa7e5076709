use citygen::logistics::{compare_names, Constraint, ConstraintSet, State};

type Measure = fn(&State) -> i64;

fn x_of(s: &State) -> i64 {
    s.get("x")
}

fn y_of(s: &State) -> i64 {
    s.get("y")
}

fn a_of(s: &State) -> i64 {
    s.get("a")
}

fn x_plus_y(s: &State) -> i64 {
    s.get("x") + s.get("y")
}

#[test]
fn state_new_keeps_last_value_of_a_name() {
    let s = State::new(&[("a", 1), ("b", 2), ("a", 3)]);
    assert_eq!(s.list.len(), 2);
    assert_eq!(s.get("a"), 3);
    assert_eq!(s.get("b"), 2);
}

#[test]
fn constraints_accept_by_their_bound() {
    let c = Constraint::ge(x_of as Measure, 5);
    assert!(c.accepts(5));
    assert!(!c.accepts(4));
    let d = Constraint::le(x_of as Measure, 5);
    assert!(d.accepts(-10));
    assert!(!d.accepts(6));
}

#[test]
fn is_valid_checks_every_constraint() {
    let cs = ConstraintSet::maximize(
        x_of as Measure,
        vec![Constraint::ge(x_of as Measure, 0), Constraint::le(x_plus_y as Measure, 10)],
    );
    assert!(cs.is_valid(&State::new(&[("x", 3), ("y", 4)])));
    assert!(!cs.is_valid(&State::new(&[("x", -1), ("y", 4)])));
    assert!(!cs.is_valid(&State::new(&[("x", 8), ("y", 4)])));
}

#[test]
fn solve_climbs_to_the_bound() {
    let cs = ConstraintSet::maximize(
        x_of as Measure,
        vec![Constraint::le(x_plus_y as Measure, 10), Constraint::ge(y_of as Measure, 0)],
    );
    let r = cs.solve(State::new(&[("x", 0), ("y", 0)]));
    assert!(cs.is_valid(&r));
    assert_eq!(r.get("x"), 10);
    assert_eq!(r.get("y"), 0);
}

#[test]
fn solve_minimizes() {
    let cs = ConstraintSet::minimize(a_of as Measure, vec![Constraint::ge(a_of as Measure, -3)]);
    let r = cs.solve(State::new(&[("a", 2)]));
    assert_eq!(r.get("a"), -3);
    assert_eq!(r.list.len(), 1);
}

#[test]
fn solve_on_empty_state_returns_it() {
    let cs = ConstraintSet::maximize(|_s: &State| 0, Vec::<Constraint<Measure>>::new());
    let empty: &[(&str, i64)] = &[];
    let r = cs.solve(State::new(empty));
    assert_eq!(r.list.len(), 0);
}

#[test]
fn state_new_keeps_names_in_ascending_order() {
    let s = State::new(&[("b", 1), ("ab", 2), ("a", 3), ("b", 4)]);
    let names: Vec<&str> = s.list.iter().map(|e| e.0.as_str()).collect();
    assert_eq!(names, vec!["a", "ab", "b"]);
    assert_eq!(s.get("b"), 4);
}

#[test]
fn compare_names_orders_by_characters() {
    assert!(compare_names(&"a".to_string(), &"b".to_string()) < 0);
    assert!(compare_names(&"ab".to_string(), &"a".to_string()) > 0);
    assert_eq!(compare_names(&"xy".to_string(), &"xy".to_string()), 0);
    assert!(compare_names(&"".to_string(), &"a".to_string()) < 0);
}

#[test]
fn solve_improves_when_raising_the_last_value_helps() {
    let cs = ConstraintSet::maximize(x_of as Measure, vec![Constraint::le(x_of as Measure, 3)]);
    let r = cs.solve(State::new(&[("x", 0)]));
    assert!(r.get("x") > 0);
    assert_eq!(r.get("x"), 3);
}

#[test]
fn climb_reports_a_local_best_when_a_round_finds_nothing() {
    let cs = ConstraintSet::maximize(x_of as Measure, vec![Constraint::le(x_of as Measure, 3)]);
    let (r, gave_up) = cs.climb(State::new(&[("x", 0)]));
    assert!(!gave_up);
    assert_eq!(r.get("x"), 3);
}

#[test]
fn climb_gives_up_on_a_flat_objective() {
    let cs = ConstraintSet::maximize(|_s: &State| 0, Vec::<Constraint<Measure>>::new());
    let (r, gave_up) = cs.climb(State::new(&[("x", 0), ("y", 0), ("z", 0)]));
    assert!(gave_up);
    assert_eq!(r.list.len(), 3);
}

#[test]
fn search_step_is_widest_threshold_over_count() {
    let cs = ConstraintSet::maximize(
        x_of as Measure,
        vec![
            Constraint::ge(x_of as Measure, 3),
            Constraint::le(y_of as Measure, -20),
            Constraint::le(x_plus_y as Measure, 7),
        ],
    );
    assert_eq!(cs.search_step(), 6);
}

#[test]
fn search_from_valid_state_changes_nothing() {
    let cs = ConstraintSet::maximize(x_of as Measure, vec![Constraint::ge(x_of as Measure, 0)]);
    let mut tried: Vec<State> = Vec::new();
    let mut stack: Vec<State> = Vec::new();
    assert!(cs.search_from(&State::new(&[("x", 2), ("y", 0)]), 5, &mut tried, &mut stack));
    assert!(tried.is_empty());
    assert!(stack.is_empty());
}

#[test]
fn search_from_pushes_untried_moves_in_order() {
    let cs = ConstraintSet::maximize(x_of as Measure, vec![Constraint::ge(x_of as Measure, 10)]);
    let mut tried: Vec<State> = vec![State::new(&[("x", 1), ("y", 2)])];
    let mut stack: Vec<State> = Vec::new();
    let x = State::new(&[("x", 1), ("y", 0)]);
    assert!(!cs.search_from(&x, 2, &mut tried, &mut stack));
    let got: Vec<(i64, i64)> = stack.iter().map(|s| (s.get("x"), s.get("y"))).collect();
    assert_eq!(got, vec![(3, 0), (-1, 0), (1, -2)]);
    assert_eq!(tried.len(), 4);
    assert_eq!((tried[3].get("x"), tried[3].get("y")), (1, -2));
}

#[test]
fn search_from_with_zero_step_offers_the_state_once() {
    let cs = ConstraintSet::maximize(x_of as Measure, vec![Constraint::ge(x_of as Measure, 10)]);
    let mut tried: Vec<State> = Vec::new();
    let mut stack: Vec<State> = Vec::new();
    let x = State::new(&[("x", 1), ("y", 0)]);
    assert!(!cs.search_from(&x, 0, &mut tried, &mut stack));
    assert_eq!(stack.len(), 1);
    assert_eq!((stack[0].get("x"), stack[0].get("y")), (1, 0));
}

#[test]
fn search_from_valid_state_at_the_edge_of_the_range() {
    let cs = ConstraintSet::maximize(x_of as Measure, vec![Constraint::ge(x_of as Measure, 0)]);
    let mut tried: Vec<State> = Vec::new();
    let mut stack: Vec<State> = Vec::new();
    assert!(cs.search_from(&State::new(&[("x", i64::MAX)]), 5, &mut tried, &mut stack));
    assert!(stack.is_empty());
}
