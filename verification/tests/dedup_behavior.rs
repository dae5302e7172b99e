use fswatch_core::dedup::RecentSet;

#[test]
fn first_emit_then_suppressed() {
    let mut r = RecentSet::new(0, 10_000);
    let m = "A file/folder was modified at: a.txt".to_string();
    assert!(r.should_emit(&m, 1_000));
    assert!(!r.should_emit(&m, 5_000));
}

#[test]
fn different_messages_both_emit() {
    let mut r = RecentSet::new(0, 10_000);
    let m1 = "A new file/folder was created at: a.txt".to_string();
    let m2 = "A file/folder was deleted from: a.txt".to_string();
    assert!(r.should_emit(&m1, 100));
    assert!(r.should_emit(&m2, 200));
    assert!(!r.should_emit(&m1, 300));
    assert!(!r.should_emit(&m2, 400));
}

#[test]
fn window_reset_reemits() {
    let mut r = RecentSet::new(0, 10_000);
    let m = "msg".to_string();
    assert!(r.should_emit(&m, 1_000));
    // The membership check runs before the clear, so the first call past
    // the window still reports the message as seen, then wipes the set.
    assert!(!r.should_emit(&m, 20_000));
    // The window was cleared and restarted at 20,000: emittable again.
    assert!(r.should_emit(&m, 20_001));
}

#[test]
fn clear_wipes_even_the_message_just_recorded() {
    let mut r = RecentSet::new(0, 10_000);
    let m = "late".to_string();
    // First offer of the message arrives after the window already expired:
    // it is emitted, recorded, and immediately wiped by the clear.
    assert!(r.should_emit(&m, 15_000));
    assert!(r.should_emit(&m, 15_001));
}

#[test]
fn window_boundary_is_exclusive() {
    let mut r = RecentSet::new(0, 10_000);
    let m = "edge".to_string();
    assert!(r.should_emit(&m, 0));
    // Exactly at window_start + window the set is not yet cleared.
    assert!(!r.should_emit(&m, 10_000));
    assert!(!r.should_emit(&m, 10_001));
    // The call at 10,001 found the window expired and cleared the set.
    assert!(r.should_emit(&m, 10_002));
}
