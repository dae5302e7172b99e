//! The engine: debouncer, classifier and deduplicator composed.
//!
//! Raw events are accepted into the debouncer (after the ignore filter),
//! coalesced events become due after the quiet period, and each due event
//! is settled: classified into change events whose messages run through
//! the deduplicator. The caller drives the engine with clock readings and
//! supplies the filesystem existence probe for each settled event.

use vstd::prelude::*;
use crate::Config;
use crate::classify::{classify, classify_spec};
use crate::debounce::{DebounceBucket, EntryView, due_entries, kept_entries, record_spec};
use crate::dedup::{RecentSet, RecentSetView, dedup_step, emit_decision};
use crate::events::{RawEvent, event_ignored, is_ignored};

verus! {

/// The deduplication state after feeding the messages of `evs`, in order,
/// through one deduplication step each at time `now`.
pub open spec fn chain_state(r: RecentSetView, evs: Seq<crate::events::ChangeEventView>, now: u64) -> RecentSetView
    decreases evs.len(),
{
    if evs.len() == 0 {
        r
    } else {
        chain_state(dedup_step(r, evs[0].message, now), evs.drop_first(), now)
    }
}

/// The messages emitted when the messages of `evs` are fed, in order,
/// through the deduplicator at time `now`: each message is kept exactly
/// when the state it meets has not seen it.
pub open spec fn chain_msgs(r: RecentSetView, evs: Seq<crate::events::ChangeEventView>, now: u64) -> Seq<
    Seq<char>,
>
    decreases evs.len(),
{
    if evs.len() == 0 {
        Seq::empty()
    } else {
        let rest = chain_msgs(dedup_step(r, evs[0].message, now), evs.drop_first(), now);
        if emit_decision(r, evs[0].message) {
            seq![evs[0].message] + rest
        } else {
            rest
        }
    }
}

/// The mathematical value of an [`Engine`].
pub struct EngineView {
    /// The configured ignore suffixes.
    pub ignore: Seq<Seq<char>>,
    /// The deduplicator state.
    pub recent: RecentSetView,
    /// The debouncer state.
    pub bucket: Seq<EntryView>,
}

/// A complete classification pipeline: ignore filter, debouncer,
/// classifier and deduplicator around one watched tree.
pub struct Engine {
    ignore_suffixes: Vec<String>,
    recent: RecentSet,
    bucket: DebounceBucket,
}

impl View for Engine {
    type V = EngineView;

    closed spec fn view(&self) -> EngineView {
        EngineView {
            ignore: self.ignore_suffixes@.map_values(|x: String| x@),
            recent: self.recent@,
            bucket: self.bucket@,
        }
    }
}

impl Engine {
    /// Both owned stages are well formed.
    pub closed spec fn wf(&self) -> bool {
        self.recent.wf() && self.bucket.wf()
    }

    /// The configured debounce interval, in milliseconds.
    pub closed spec fn debounce_interval(&self) -> u64 {
        self.bucket.interval()
    }

    /// A fresh engine for the given configuration, whose deduplication
    /// window opens at `start`.
    pub fn new(config: Config, start: u64) -> (e: Engine)
        ensures
            e.wf(),
            e@.ignore == config.ignore_suffixes@.map_values(|x: String| x@),
            e@.recent.seen == Set::<Seq<char>>::empty(),
            e@.recent.window_start == start,
            e@.recent.window_ms == config.dedup_window_ms,
            e@.bucket == Seq::<EntryView>::empty(),
            e.debounce_interval() == config.debounce_interval_ms,
    {
        Engine {
            ignore_suffixes: config.ignore_suffixes,
            recent: RecentSet::new(start, config.dedup_window_ms),
            bucket: DebounceBucket::new(config.debounce_interval_ms),
        }
    }

    /// Accepts a raw event at time `now`. An event all of whose paths match
    /// the ignore filter is dropped before any other processing; any other
    /// event is recorded in the debouncer under its first path.
    pub fn accept(&mut self, event: RawEvent, now: u64)
        requires
            old(self).wf(),
            event.wf(),
            event@.paths.len() >= 1,
        ensures
            final(self).wf(),
            final(self)@.ignore == old(self)@.ignore,
            final(self)@.recent == old(self)@.recent,
            final(self).debounce_interval() == old(self).debounce_interval(),
            event_ignored(event@, old(self)@.ignore) ==> final(self)@.bucket == old(self)@.bucket,
            !event_ignored(event@, old(self)@.ignore) ==> final(self)@.bucket == record_spec(
                old(self)@.bucket,
                event@,
                now,
            ),
    {
        let ghost ign = self@.ignore;
        let ghost ev = event@;
        let mut all_ignored = true;
        let mut i: usize = 0;
        while i < event.paths.len()
            invariant
                *self == *old(self),
                ign == self@.ignore,
                ev == event@,
                i <= event.paths@.len(),
                event@.paths.len() == event.paths@.len(),
                all_ignored == forall|j: int|
                    0 <= j < i ==> crate::events::ignored(ev.paths[j], ign),
            decreases event.paths@.len() - i,
        {
            proof {
                assert(ev.paths[i as int] == event.paths@[i as int]@);
            }
            if !is_ignored(&event.paths[i], &self.ignore_suffixes) {
                all_ignored = false;
            }
            proof {
                if all_ignored {
                    assert(forall|j: int| 0 <= j < i + 1 ==> crate::events::ignored(
                        ev.paths[j],
                        ign,
                    ));
                } else {
                    if crate::events::ignored(ev.paths[i as int], ign) {
                        assert(!(forall|j: int| 0 <= j < i ==> crate::events::ignored(
                            ev.paths[j],
                            ign,
                        )));
                    }
                    assert(!(forall|j: int| 0 <= j < i + 1 ==> crate::events::ignored(
                        ev.paths[j],
                        ign,
                    )));
                }
            }
            i = i + 1;
        }
        proof {
            assert(all_ignored == event_ignored(ev, ign));
        }
        if !all_ignored {
            self.bucket.record(event, now);
        }
    }

    /// Scans the debouncer at time `now` and returns the coalesced raw
    /// events whose quiet period has elapsed, in bucket order.
    pub fn due(&mut self, now: u64) -> (out: Vec<RawEvent>)
        requires
            old(self).wf(),
        ensures
            final(self).wf(),
            final(self)@.ignore == old(self)@.ignore,
            final(self)@.recent == old(self)@.recent,
            final(self).debounce_interval() == old(self).debounce_interval(),
            final(self)@.bucket == kept_entries(
                old(self)@.bucket,
                now,
                old(self).debounce_interval(),
            ),
            out@.map_values(|e: RawEvent| e@) == due_entries(
                old(self)@.bucket,
                now,
                old(self).debounce_interval(),
            ).map_values(|en: EntryView| en.event),
            forall|i: int| 0 <= i < out@.len() ==> out@[i].wf() && out@[i]@.paths.len() >= 1,
    {
        self.bucket.flush(now)
    }

    /// Drains the debouncer on shutdown: every pending coalesced raw event
    /// is returned, in bucket order, regardless of its timer, so that no
    /// accepted change is lost when the watch session ends.
    pub fn drain(&mut self) -> (out: Vec<RawEvent>)
        requires
            old(self).wf(),
        ensures
            final(self).wf(),
            final(self)@.ignore == old(self)@.ignore,
            final(self)@.recent == old(self)@.recent,
            final(self).debounce_interval() == old(self).debounce_interval(),
            final(self)@.bucket == Seq::<EntryView>::empty(),
            out@.map_values(|e: RawEvent| e@) == old(self)@.bucket.map_values(
                |en: EntryView| en.event,
            ),
            forall|i: int| 0 <= i < out@.len() ==> out@[i].wf() && out@[i]@.paths.len() >= 1,
    {
        self.bucket.drain()
    }

    /// Settles one coalesced raw event at time `now`: classifies it, feeds
    /// every resulting message through the deduplicator, and returns the
    /// messages that are to be emitted, in order. `exists_now` is the
    /// outcome of probing the filesystem for the event's first path.
    pub fn settle(&mut self, event: &RawEvent, exists_now: bool, now: u64) -> (msgs: Vec<String>)
        requires
            old(self).wf(),
            event.wf(),
        ensures
            final(self).wf(),
            final(self)@.ignore == old(self)@.ignore,
            final(self)@.bucket == old(self)@.bucket,
            final(self).debounce_interval() == old(self).debounce_interval(),
            final(self)@.recent == chain_state(
                old(self)@.recent,
                classify_spec(event@, exists_now, old(self)@.ignore),
                now,
            ),
            msgs@.map_values(|m: String| m@) == chain_msgs(
                old(self)@.recent,
                classify_spec(event@, exists_now, old(self)@.ignore),
                now,
            ),
    {
        let ghost r0 = self@.recent;
        let ghost ign = self@.ignore;
        let changes = classify(event, exists_now, &self.ignore_suffixes);
        let ghost cv = changes@.map_values(|c: crate::events::ChangeEvent| c@);
        let mut msgs: Vec<String> = Vec::new();
        let mut i: usize = 0;
        proof {
            assert(cv.subrange(0, cv.len() as int) =~= cv);
            assert(msgs@.map_values(|m: String| m@) =~= Seq::<Seq<char>>::empty());
            assert(Seq::<Seq<char>>::empty() + chain_msgs(self@.recent, cv, now) =~= chain_msgs(
                self@.recent,
                cv,
                now,
            ));
        }
        while i < changes.len()
            invariant
                self.wf(),
                self.ignore_suffixes == old(self).ignore_suffixes,
                self.bucket == old(self).bucket,
                r0 == old(self)@.recent,
                ign == old(self)@.ignore,
                cv == changes@.map_values(|c: crate::events::ChangeEvent| c@),
                i <= changes@.len(),
                chain_state(self@.recent, cv.subrange(i as int, cv.len() as int), now)
                    == chain_state(r0, cv, now),
                msgs@.map_values(|m: String| m@) + chain_msgs(
                    self@.recent,
                    cv.subrange(i as int, cv.len() as int),
                    now,
                ) == chain_msgs(r0, cv, now),
            decreases changes@.len() - i,
        {
            let ghost prev = self@.recent;
            let ghost suffix = cv.subrange(i as int, cv.len() as int);
            proof {
                assert(cv[i as int] == changes@[i as int]@);
                assert(suffix[0] == cv[i as int]);
                assert(suffix.drop_first() =~= cv.subrange(i as int + 1, cv.len() as int));
            }
            let emit = self.recent.should_emit(&changes[i].message, now);
            proof {
                assert(changes@[i as int]@.message == changes@[i as int].message@);
                assert(self@.recent == dedup_step(prev, suffix[0].message, now));
                assert(chain_state(prev, suffix, now) == chain_state(
                    self@.recent,
                    suffix.drop_first(),
                    now,
                ));
            }
            if emit {
                let ghost msgs0 = msgs@.map_values(|m: String| m@);
                msgs.push(changes[i].message.clone());
                proof {
                    assert(msgs@.map_values(|m: String| m@) =~= msgs0.push(suffix[0].message));
                    assert(chain_msgs(prev, suffix, now) == seq![suffix[0].message] + chain_msgs(
                        self@.recent,
                        suffix.drop_first(),
                        now,
                    ));
                    assert(msgs0.push(suffix[0].message) + chain_msgs(
                        self@.recent,
                        suffix.drop_first(),
                        now,
                    ) =~= msgs0 + (seq![suffix[0].message] + chain_msgs(
                        self@.recent,
                        suffix.drop_first(),
                        now,
                    )));
                }
            } else {
                proof {
                    assert(chain_msgs(prev, suffix, now) == chain_msgs(
                        self@.recent,
                        suffix.drop_first(),
                        now,
                    ));
                }
            }
            i = i + 1;
        }
        proof {
            assert(cv.subrange(cv.len() as int, cv.len() as int) =~= Seq::<
                crate::events::ChangeEventView,
            >::empty());
            assert(msgs@.map_values(|m: String| m@) + Seq::<Seq<char>>::empty() =~= msgs@.map_values(
                |m: String| m@,
            ));
        }
        msgs
    }
}

/// Ignore filter at the engine: an event all of whose paths match the
/// ignore filter yields no change event and leaves the deduplication state
/// untouched.
pub proof fn lemma_ignored_event_touches_nothing(
    e: crate::events::RawEventView,
    exists_now: bool,
    ign: Seq<Seq<char>>,
    r: RecentSetView,
    now: u64,
)
    requires
        e.wf(),
        event_ignored(e, ign),
    ensures
        classify_spec(e, exists_now, ign) == Seq::<crate::events::ChangeEventView>::empty(),
        chain_state(r, classify_spec(e, exists_now, ign), now) == r,
        chain_msgs(r, classify_spec(e, exists_now, ign), now) == Seq::<Seq<char>>::empty(),
{
    crate::classify::lemma_ignore_filter(e, exists_now, ign);
}

} // verus!
