use kaze_nhanh::generation::TokenWindow;

#[test]
fn window_starts_with_the_last_prompt_tokens() {
    let w = TokenWindow::new(vec![1, 2, 3, 4, 5], 3, 128);
    assert_eq!(w.step_input(0), (vec![3, 4, 5], 2));
    assert!(w.generated().is_empty());

    let short = TokenWindow::new(vec![7, 8], 4, 128);
    assert_eq!(short.step_input(0), (vec![7, 8], 0));
}

#[test]
fn later_steps_feed_only_the_newest_token() {
    let mut w = TokenWindow::new(vec![1, 2, 3], 3, 128);
    assert!(w.accept(9, Some(0)));
    assert_eq!(w.step_input(1), (vec![9], 3));
    assert!(w.accept(10, None));
    assert_eq!(w.step_input(2), (vec![10], 4));
    assert_eq!(w.step_input(0), (vec![3, 9, 10], 2));
    assert_eq!(w.generated(), vec![9, 10]);
}

#[test]
fn end_of_sequence_stops_without_appending() {
    let mut w = TokenWindow::new(vec![1], 8, 128);
    assert!(w.accept(5, Some(2)));
    assert!(!w.accept(2, Some(2)));
    assert_eq!(w.generated(), vec![5]);
    assert_eq!(w.step_input(1), (vec![5], 1));
}

#[test]
fn generation_stops_after_the_token_limit() {
    let mut w = TokenWindow::new(vec![1], 4, 2);
    assert!(w.has_room());
    assert!(w.accept(5, None));
    assert!(w.has_room());
    assert!(w.accept(6, None));
    assert!(!w.has_room());
    assert_eq!(w.generated(), vec![5, 6]);
}
