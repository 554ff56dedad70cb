use game_theory::window::DeltaWindow;

#[test]
fn settles_exactly_when_the_latest_deltas_fit_the_accuracy() {
    let mut window = DeltaWindow::new(3);
    // Not full yet: never settled, whatever the accuracy.
    window.push(0);
    window.push(0);
    assert_eq!(window.len(), 2);
    assert!(!window.is_settled(u64::MAX));
    window.push(9);
    assert_eq!(window.sum(), 9);
    assert!(window.is_settled(9));
    assert!(!window.is_settled(8));
    // The oldest zero leaves; 0 + 9 + 5.
    window.push(5);
    assert_eq!(window.len(), 3);
    assert_eq!(window.sum(), 14);
    assert!(!window.is_settled(13));
    // 9 + 5 + 1 = 15, then 5 + 1 + 1 = 7: the stop comes at this push.
    window.push(1);
    assert!(!window.is_settled(7));
    window.push(1);
    assert!(window.is_settled(7));
}

#[test]
fn window_of_one_follows_the_last_delta() {
    let mut window = DeltaWindow::new(1);
    assert!(!window.is_settled(0));
    window.push(4);
    assert!(!window.is_settled(3));
    window.push(3);
    assert!(window.is_settled(3));
    assert_eq!(window.sum(), 3);
}

#[test]
fn large_deltas_do_not_overflow_the_sum() {
    let mut window = DeltaWindow::new(4);
    for _ in 0..6 {
        window.push(u64::MAX);
    }
    assert_eq!(window.sum(), 4 * u64::MAX as u128);
}
