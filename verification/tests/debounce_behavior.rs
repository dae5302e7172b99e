use fswatch_core::debounce::DebounceBucket;
use fswatch_core::events::{RawEvent, RawKind};

fn modify(path: &str) -> RawEvent {
    RawEvent::single(RawKind::Modify, path.to_string())
}

#[test]
fn burst_coalesces_to_single_event() {
    let mut b = DebounceBucket::new(2_000);
    b.record(modify("f.txt"), 0);
    b.record(modify("f.txt"), 500);
    b.record(modify("f.txt"), 1_000);
    // Scans during the burst flush nothing for the path.
    assert!(b.flush(1_500).is_empty());
    // After the quiet period, exactly one coalesced modify comes out.
    let out = b.flush(3_000);
    assert_eq!(out.len(), 1);
    assert_eq!(out[0].kind, RawKind::Modify);
    assert_eq!(out[0].paths, vec!["f.txt".to_string()]);
    // Nothing is left pending.
    assert!(b.flush(10_000).is_empty());
}

#[test]
fn flush_boundary_is_inclusive() {
    let mut b = DebounceBucket::new(2_000);
    b.record(modify("f.txt"), 0);
    assert!(b.flush(1_999).is_empty());
    let out = b.flush(2_000);
    assert_eq!(out.len(), 1);
}

#[test]
fn last_write_wins_per_path() {
    let mut b = DebounceBucket::new(2_000);
    b.record(RawEvent::single(RawKind::Create, "f.txt".to_string()), 0);
    b.record(RawEvent::single(RawKind::Modify, "f.txt".to_string()), 100);
    let out = b.flush(2_100);
    assert_eq!(out.len(), 1);
    assert_eq!(out[0].kind, RawKind::Modify);
}

#[test]
fn refresh_postpones_the_flush() {
    let mut b = DebounceBucket::new(2_000);
    b.record(modify("f.txt"), 0);
    b.record(modify("f.txt"), 1_900);
    // Quiet only since the refresh at 1,900.
    assert!(b.flush(2_100).is_empty());
    assert_eq!(b.flush(3_900).len(), 1);
}

#[test]
fn independent_paths_flush_on_their_own_timers() {
    let mut b = DebounceBucket::new(2_000);
    b.record(modify("a.txt"), 0);
    b.record(modify("b.txt"), 1_500);
    let first = b.flush(2_500);
    assert_eq!(first.len(), 1);
    assert_eq!(first[0].paths[0], "a.txt");
    let second = b.flush(3_500);
    assert_eq!(second.len(), 1);
    assert_eq!(second[0].paths[0], "b.txt");
}

#[test]
fn flush_keeps_bucket_order() {
    let mut b = DebounceBucket::new(1_000);
    b.record(modify("a.txt"), 0);
    b.record(modify("b.txt"), 0);
    b.record(modify("c.txt"), 0);
    let out = b.flush(1_000);
    assert_eq!(out.len(), 3);
    assert_eq!(out[0].paths[0], "a.txt");
    assert_eq!(out[1].paths[0], "b.txt");
    assert_eq!(out[2].paths[0], "c.txt");
}

#[test]
fn drain_flushes_everything_immediately() {
    let mut b = DebounceBucket::new(2_000);
    b.record(modify("a.txt"), 0);
    b.record(modify("b.txt"), 100);
    let out = b.drain();
    assert_eq!(out.len(), 2);
    assert_eq!(out[0].paths[0], "a.txt");
    assert_eq!(out[1].paths[0], "b.txt");
    assert!(b.flush(100_000).is_empty());
}
