use fswatch_core::Config;
use fswatch_core::engine::Engine;
use fswatch_core::events::{RawEvent, RawKind};

fn standard_engine() -> Engine {
    Engine::new(Config::standard(), 0)
}

/// Drives one event through debouncer, classifier and deduplicator: accept
/// it, wait out the debounce interval, settle what came due.
fn push_through(e: &mut Engine, event: RawEvent, exists_now: bool, at: u64) -> Vec<String> {
    e.accept(event, at);
    let due = e.due(at + 2_000);
    let mut msgs = Vec::new();
    for ev in &due {
        msgs.extend(e.settle(ev, exists_now, at + 2_000));
    }
    msgs
}

#[test]
fn end_to_end_create_then_delete_then_create() {
    let mut e = standard_engine();

    // Create a.txt: exactly one created message.
    let msgs = push_through(
        &mut e,
        RawEvent::single(RawKind::Create, "a.txt".to_string()),
        true,
        0,
    );
    assert_eq!(msgs, vec!["A new file/folder was created at: a.txt".to_string()]);

    // Delete it right away: exactly one deleted message.
    let msgs = push_through(
        &mut e,
        RawEvent::single(RawKind::Remove, "a.txt".to_string()),
        false,
        2_100,
    );
    assert_eq!(msgs, vec!["A file/folder was deleted from: a.txt".to_string()]);

    // Recreate it within the same ten-second window: the created message is
    // already in the recent set, so it is suppressed this time.
    let msgs = push_through(
        &mut e,
        RawEvent::single(RawKind::Create, "a.txt".to_string()),
        true,
        4_200,
    );
    assert!(msgs.is_empty());
}

#[test]
fn fresh_window_reemits_created_message() {
    let mut e = standard_engine();
    let msgs = push_through(
        &mut e,
        RawEvent::single(RawKind::Create, "a.txt".to_string()),
        true,
        0,
    );
    assert_eq!(msgs.len(), 1);
    // Far past the window: the first settle past it clears the recent set,
    // and the message comes out again on the next occurrence.
    let msgs = push_through(
        &mut e,
        RawEvent::single(RawKind::Create, "a.txt".to_string()),
        true,
        30_000,
    );
    assert!(msgs.is_empty());
    let msgs = push_through(
        &mut e,
        RawEvent::single(RawKind::Create, "a.txt".to_string()),
        true,
        40_000,
    );
    assert_eq!(msgs, vec!["A new file/folder was created at: a.txt".to_string()]);
}

#[test]
fn debounced_burst_yields_one_message() {
    let mut e = standard_engine();
    e.accept(RawEvent::single(RawKind::Modify, "f.txt".to_string()), 0);
    e.accept(RawEvent::single(RawKind::Modify, "f.txt".to_string()), 500);
    e.accept(RawEvent::single(RawKind::Modify, "f.txt".to_string()), 1_000);
    assert!(e.due(1_500).is_empty());
    let due = e.due(3_000);
    assert_eq!(due.len(), 1);
    let msgs = e.settle(&due[0], true, 3_000);
    assert_eq!(msgs, vec!["A file/folder was modified at: f.txt".to_string()]);
}

#[test]
fn ignored_event_is_dropped_before_everything() {
    let mut e = standard_engine();
    e.accept(RawEvent::single(RawKind::Modify, "x/.DS_Store".to_string()), 0);
    // Nothing pending: the event never entered the debouncer.
    assert!(e.due(10_000).is_empty());
    // And the recent set was never touched: a direct settle of an equally
    // ignored coalesced event emits nothing either.
    let ev = RawEvent::single(RawKind::Create, "y/.DS_Store".to_string());
    assert!(e.settle(&ev, true, 100).is_empty());
}

#[test]
fn rename_emits_two_messages() {
    let mut e = standard_engine();
    let msgs = push_through(
        &mut e,
        RawEvent::rename("old.txt".to_string(), "new.txt".to_string()),
        true,
        0,
    );
    assert_eq!(
        msgs,
        vec![
            "A file/folder was deleted from: old.txt".to_string(),
            "A new file/folder was created at: new.txt".to_string(),
        ]
    );
}

#[test]
fn same_message_twice_in_one_settle_batch_emits_once() {
    let mut e = standard_engine();
    let ev = RawEvent::single(RawKind::Create, "a.txt".to_string());
    assert_eq!(e.settle(&ev, true, 0).len(), 1);
    assert!(e.settle(&ev, true, 1).is_empty());
}

#[test]
fn drain_on_stop_settles_pending_events() {
    let mut e = standard_engine();
    e.accept(RawEvent::single(RawKind::Create, "late.txt".to_string()), 0);
    // The debounce interval has not elapsed, but the session is ending.
    let pending = e.drain();
    assert_eq!(pending.len(), 1);
    let msgs = e.settle(&pending[0], true, 100);
    assert_eq!(msgs, vec!["A new file/folder was created at: late.txt".to_string()]);
    assert!(e.due(100_000).is_empty());
}
