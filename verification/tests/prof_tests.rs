use citygen::prof::TimeManager;

#[test]
fn frames_add_up_and_report_when_the_stack_empties() {
    let mut t = TimeManager::new();
    t.frame_push("outer".to_string());
    t.frame_push("inner".to_string());
    assert_eq!(t.times.len(), 2);
    assert!(t.frame_pop(&"inner".to_string(), 5).is_none());
    t.frame_push("inner".to_string());
    assert_eq!(t.times.len(), 2);
    assert!(t.frame_pop(&"inner".to_string(), 7).is_none());
    let (report, total) = t.frame_pop(&"outer".to_string(), 20).unwrap();
    assert_eq!(total, 32);
    assert_eq!(report, vec![("outer".to_string(), 20), ("inner".to_string(), 12)]);
    assert!(t.stack.is_empty());
}

#[test]
fn frame_pop_with_frames_open_needs_room_only_in_its_entry() {
    let mut t = TimeManager::new();
    t.frame_push("outer".to_string());
    t.frame_push("inner".to_string());
    assert!(t.frame_pop(&"inner".to_string(), 5).is_none());
    t.frame_push("other".to_string());
    assert!(t.frame_pop(&"other".to_string(), u128::MAX).is_none());
    assert_eq!(t.times[2], ("other".to_string(), u128::MAX));
}
