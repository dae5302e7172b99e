//! The debouncer: coalesces bursts of raw events per path.
//!
//! Each path has at most one pending raw event. A newly arrived event for a
//! path that is already pending overwrites the pending event (last write
//! wins) and refreshes its timestamp; a periodic scan flushes every entry
//! that has been quiet for at least the debounce interval, forwarding it
//! downstream as a single coalesced raw event.

use vstd::prelude::*;
use crate::events::{RawEvent, RawEventView, RawKind};

verus! {

/// A pending raw event together with the time it was last refreshed.
pub struct PendingEntry {
    pub event: RawEvent,
    pub last_seen: u64,
}

/// The mathematical value of a [`PendingEntry`].
pub struct EntryView {
    pub event: RawEventView,
    pub last_seen: u64,
}

impl View for PendingEntry {
    type V = EntryView;

    open spec fn view(&self) -> EntryView {
        EntryView { event: self.event@, last_seen: self.last_seen }
    }
}

/// The path an entry is keyed by: the first path of its event.
pub open spec fn entry_key(en: EntryView) -> Seq<char> {
    en.event.paths[0]
}

/// A well-formed entry holds a well-formed event with at least one path.
pub open spec fn entry_wf(en: EntryView) -> bool {
    en.event.wf() && en.event.paths.len() >= 1
}

/// Whether some entry is keyed by `p`.
pub open spec fn contains_key(s: Seq<EntryView>, p: Seq<char>) -> bool {
    exists|i: int| 0 <= i < s.len() && entry_key(s[i]) == p
}

/// The index of the entry keyed by `p` (meaningful when keys are unique).
pub open spec fn index_of_key(s: Seq<EntryView>, p: Seq<char>) -> int {
    choose|i: int| 0 <= i < s.len() && entry_key(s[i]) == p
}

/// No two entries share a key.
pub open spec fn unique_keys(s: Seq<EntryView>) -> bool {
    forall|i: int, j: int| 0 <= i < j < s.len() ==> entry_key(s[i]) != entry_key(s[j])
}

/// The bucket after recording event `e` at time `now`: the entry keyed by
/// the event's first path is overwritten in place, or appended when the
/// path had nothing pending.
pub open spec fn record_spec(s: Seq<EntryView>, e: RawEventView, now: u64) -> Seq<EntryView> {
    let en = EntryView { event: e, last_seen: now };
    if contains_key(s, e.paths[0]) {
        s.update(index_of_key(s, e.paths[0]), en)
    } else {
        s.push(en)
    }
}

/// Whether an entry is due to be flushed at time `now`: it has been quiet
/// for at least the debounce interval.
pub open spec fn is_due(en: EntryView, now: u64, interval: u64) -> bool {
    now >= en.last_seen + interval
}

/// The entries flushed by a scan at time `now`, in bucket order.
pub open spec fn due_entries(s: Seq<EntryView>, now: u64, interval: u64) -> Seq<EntryView>
    decreases s.len(),
{
    if s.len() == 0 {
        Seq::empty()
    } else {
        let rest = due_entries(s.drop_last(), now, interval);
        if is_due(s.last(), now, interval) {
            rest.push(s.last())
        } else {
            rest
        }
    }
}

/// The entries a scan at time `now` leaves pending, in bucket order.
pub open spec fn kept_entries(s: Seq<EntryView>, now: u64, interval: u64) -> Seq<EntryView>
    decreases s.len(),
{
    if s.len() == 0 {
        Seq::empty()
    } else {
        let rest = kept_entries(s.drop_last(), now, interval);
        if is_due(s.last(), now, interval) {
            rest
        } else {
            rest.push(s.last())
        }
    }
}

/// How many entries of `s` are keyed by `p`.
pub open spec fn count_key(s: Seq<EntryView>, p: Seq<char>) -> nat
    decreases s.len(),
{
    if s.len() == 0 {
        0
    } else {
        count_key(s.drop_last(), p) + if entry_key(s.last()) == p {
            1nat
        } else {
            0nat
        }
    }
}

/// Mapping over a sequence commutes with dropping its first element.
proof fn lemma_map_values_remove_first<A, B>(s: Seq<A>, f: spec_fn(A) -> B)
    requires
        s.len() >= 1,
    ensures
        s.remove(0).map_values(f) == s.map_values(f).remove(0),
{
    assert forall|j: int| 0 <= j < s.len() - 1 implies (#[trigger] s.remove(0).map_values(f)[j])
        == s.map_values(f).remove(0)[j] by {
        assert(s.remove(0)[j] == s[j + 1]);
        assert(s.map_values(f).remove(0)[j] == s.map_values(f)[j + 1]);
    }
    assert(s.remove(0).map_values(f) =~= s.map_values(f).remove(0));
}

/// Mapping over a sequence commutes with appending an element.
proof fn lemma_map_values_push<A, B>(s: Seq<A>, x: A, f: spec_fn(A) -> B)
    ensures
        s.push(x).map_values(f) == s.map_values(f).push(f(x)),
{
    assert forall|j: int| 0 <= j < s.len() + 1 implies (#[trigger] s.push(x).map_values(f)[j])
        == s.map_values(f).push(f(x))[j] by {
        if j < s.len() {
            assert(s.push(x)[j] == s[j]);
        } else {
            assert(s.push(x)[j] == x);
        }
    }
    assert(s.push(x).map_values(f) =~= s.map_values(f).push(f(x)));
}

/// A sequence has no entry keyed by `p` exactly when its key count is zero.
pub proof fn lemma_count_key_zero(s: Seq<EntryView>, p: Seq<char>)
    ensures
        count_key(s, p) == 0 <==> !contains_key(s, p),
    decreases s.len(),
{
    if s.len() == 0 {
    } else {
        lemma_count_key_zero(s.drop_last(), p);
        if contains_key(s.drop_last(), p) {
            let i = index_of_key(s.drop_last(), p);
            assert(entry_key(s[i]) == p);
        }
        if entry_key(s.last()) == p {
            assert(entry_key(s[s.len() - 1]) == p);
        }
        if contains_key(s, p) && entry_key(s.last()) != p {
            let i = choose|i: int| 0 <= i < s.len() && entry_key(s[i]) == p;
            assert(s.drop_last()[i] == s[i]);
        }
    }
}

/// Everything a scan flushes was pending and due; everything it keeps was
/// pending and not yet due.
pub proof fn lemma_scan_membership(s: Seq<EntryView>, now: u64, interval: u64)
    ensures
        forall|en: EntryView|
            due_entries(s, now, interval).contains(en) ==> s.contains(en) && is_due(
                en,
                now,
                interval,
            ),
        forall|en: EntryView|
            kept_entries(s, now, interval).contains(en) ==> s.contains(en) && !is_due(
                en,
                now,
                interval,
            ),
    decreases s.len(),
{
    if s.len() == 0 {
    } else {
        lemma_scan_membership(s.drop_last(), now, interval);
        assert(due_entries(s, now, interval) == if is_due(s.last(), now, interval) {
            due_entries(s.drop_last(), now, interval).push(s.last())
        } else {
            due_entries(s.drop_last(), now, interval)
        });
        assert(kept_entries(s, now, interval) == if is_due(s.last(), now, interval) {
            kept_entries(s.drop_last(), now, interval)
        } else {
            kept_entries(s.drop_last(), now, interval).push(s.last())
        });
        assert forall|en: EntryView| s.drop_last().contains(en) implies s.contains(en) by {
            let i = choose|i: int| 0 <= i < s.drop_last().len() && s.drop_last()[i] == en;
            assert(s[i] == en);
        }
        assert(s.contains(s.last())) by {
            assert(s[s.len() - 1] == s.last());
        }
        assert forall|en: EntryView| due_entries(s, now, interval).contains(en) implies s.contains(
            en,
        ) && is_due(en, now, interval) by {
            let d = due_entries(s, now, interval);
            let rest = due_entries(s.drop_last(), now, interval);
            let i = choose|i: int| 0 <= i < d.len() && d[i] == en;
            assert(d[i] == en);
            if is_due(s.last(), now, interval) && i == rest.len() {
                assert(d == rest.push(s.last()));
                assert(d[i] == s.last());
                assert(en == s.last());
                assert(s[s.len() - 1] == en);
                assert(s.contains(en));
            } else {
                if is_due(s.last(), now, interval) {
                    assert(d == rest.push(s.last()));
                    assert(d[i] == rest[i]);
                } else {
                    assert(d == rest);
                }
                assert(rest.contains(en));
                assert(rest.contains(en) ==> s.drop_last().contains(en) && is_due(
                    en,
                    now,
                    interval,
                ));
                let j = choose|j: int| 0 <= j < s.drop_last().len() && s.drop_last()[j] == en;
                assert(s[j] == en);
                assert(s.contains(en));
            }
        }
        assert forall|en: EntryView| kept_entries(s, now, interval).contains(en) implies s.contains(
            en,
        ) && !is_due(en, now, interval) by {
            let k = kept_entries(s, now, interval);
            let rest = kept_entries(s.drop_last(), now, interval);
            let i = choose|i: int| 0 <= i < k.len() && k[i] == en;
            assert(k[i] == en);
            if !is_due(s.last(), now, interval) && i == rest.len() {
                assert(k == rest.push(s.last()));
                assert(k[i] == s.last());
                assert(en == s.last());
                assert(s[s.len() - 1] == en);
                assert(s.contains(en));
            } else {
                if !is_due(s.last(), now, interval) {
                    assert(k == rest.push(s.last()));
                    assert(k[i] == rest[i]);
                } else {
                    assert(k == rest);
                }
                assert(rest.contains(en));
                assert(rest.contains(en) ==> s.drop_last().contains(en) && !is_due(
                    en,
                    now,
                    interval,
                ));
                let j = choose|j: int| 0 <= j < s.drop_last().len() && s.drop_last()[j] == en;
                assert(s[j] == en);
                assert(s.contains(en));
            }
        }
    }
}

/// A scan never invents a key, and it preserves the uniqueness of keys in
/// both halves of the split.
pub proof fn lemma_scan_unique(s: Seq<EntryView>, now: u64, interval: u64)
    requires
        unique_keys(s),
    ensures
        unique_keys(due_entries(s, now, interval)),
        unique_keys(kept_entries(s, now, interval)),
        forall|p: Seq<char>|
            contains_key(due_entries(s, now, interval), p) ==> contains_key(s, p),
        forall|p: Seq<char>|
            contains_key(kept_entries(s, now, interval), p) ==> contains_key(s, p),
    decreases s.len(),
{
    if s.len() == 0 {
    } else {
        let s0 = s.drop_last();
        assert(unique_keys(s0)) by {
            assert(forall|i: int| 0 <= i < s0.len() ==> s0[i] == s[i]);
        }
        lemma_scan_unique(s0, now, interval);
        assert forall|p: Seq<char>| contains_key(s0, p) implies contains_key(s, p) by {
            let i = index_of_key(s0, p);
            assert(entry_key(s[i]) == p);
        }
        let d0 = due_entries(s0, now, interval);
        let k0 = kept_entries(s0, now, interval);
        assert(!contains_key(s0, entry_key(s.last()))) by {
            if contains_key(s0, entry_key(s.last())) {
                let i = index_of_key(s0, entry_key(s.last()));
                assert(entry_key(s[i]) == entry_key(s[s.len() - 1]));
            }
        }
        if is_due(s.last(), now, interval) {
            assert(unique_keys(d0.push(s.last()))) by {
                assert forall|i: int, j: int|
                    0 <= i < j < d0.push(s.last()).len() implies entry_key(
                    d0.push(s.last())[i],
                ) != entry_key(d0.push(s.last())[j]) by {
                    if j == d0.len() {
                        assert(entry_key(d0[i]) == entry_key(d0.push(s.last())[i]));
                        assert(contains_key(d0, entry_key(d0[i])));
                    }
                }
            }
            assert forall|p: Seq<char>|
                contains_key(due_entries(s, now, interval), p) implies contains_key(s, p) by {
                let i = index_of_key(due_entries(s, now, interval), p);
                if i < d0.len() {
                    assert(entry_key(d0[i]) == p);
                } else {
                    assert(entry_key(s[s.len() - 1]) == p);
                }
            }
        } else {
            assert(unique_keys(k0.push(s.last()))) by {
                assert forall|i: int, j: int|
                    0 <= i < j < k0.push(s.last()).len() implies entry_key(
                    k0.push(s.last())[i],
                ) != entry_key(k0.push(s.last())[j]) by {
                    if j == k0.len() {
                        assert(entry_key(k0[i]) == entry_key(k0.push(s.last())[i]));
                        assert(contains_key(k0, entry_key(k0[i])));
                    }
                }
            }
            assert forall|p: Seq<char>|
                contains_key(kept_entries(s, now, interval), p) implies contains_key(s, p) by {
                let i = index_of_key(kept_entries(s, now, interval), p);
                if i < k0.len() {
                    assert(entry_key(k0[i]) == p);
                } else {
                    assert(entry_key(s[s.len() - 1]) == p);
                }
            }
        }
    }
}

/// The per-path debounce state: at most one pending raw event per path.
pub struct DebounceBucket {
    entries: Vec<PendingEntry>,
    interval_ms: u64,
}

impl View for DebounceBucket {
    type V = Seq<EntryView>;

    closed spec fn view(&self) -> Seq<EntryView> {
        self.entries@.map_values(|en: PendingEntry| en@)
    }
}

impl DebounceBucket {
    /// Keys are unique and every pending event is well formed.
    pub open spec fn wf(&self) -> bool {
        unique_keys(self@) && forall|i: int| 0 <= i < self@.len() ==> entry_wf(self@[i])
    }

    /// The configured debounce interval, in milliseconds.
    pub closed spec fn interval(&self) -> u64 {
        self.interval_ms
    }

    /// An empty bucket with the given debounce interval.
    pub fn new(interval_ms: u64) -> (b: DebounceBucket)
        ensures
            b@ == Seq::<EntryView>::empty(),
            b.interval() == interval_ms,
            b.wf(),
    {
        let b = DebounceBucket { entries: Vec::new(), interval_ms };
        proof {
            assert(b@ =~= Seq::<EntryView>::empty());
        }
        b
    }

    /// Records a raw event at time `now`: the pending event for the event's
    /// first path is overwritten (last write wins) and its timestamp
    /// refreshed; a path with nothing pending gains a fresh entry.
    pub fn record(&mut self, event: RawEvent, now: u64)
        requires
            old(self).wf(),
            event.wf(),
            event@.paths.len() >= 1,
        ensures
            final(self).wf(),
            final(self)@ == record_spec(old(self)@, event@, now),
            final(self).interval() == old(self).interval(),
    {
        let ghost s0 = self@;
        let ghost ev = event@;
        let ghost p = event@.paths[0];
        let mut i: usize = 0;
        while i < self.entries.len()
            invariant
                *self == *old(self),
                self@ == s0,
                self.wf(),
                s0 == self.entries@.map_values(|en: PendingEntry| en@),
                i <= self.entries@.len(),
                forall|j: int| 0 <= j < i ==> entry_key(s0[j]) != p,
                ev == event@,
                ev.wf(),
                p == ev.paths[0],
                ev.paths.len() >= 1,
            decreases self.entries@.len() - i,
        {
            proof {
                assert(s0[i as int] == self.entries@[i as int]@);
                assert(entry_wf(s0[i as int]));
                assert(self.entries@[i as int].event.paths@.map_values(|q: String| q@)
                    == s0[i as int].event.paths);
            }
            if self.entries[i].event.paths[0] == event.paths[0] {
                proof {
                    assert(entry_key(s0[i as int]) == p);
                    assert(contains_key(s0, p));
                }
                let _replaced = self.entries.remove(i);
                self.entries.insert(i, PendingEntry { event, last_seen: now });
                proof {
                    let en = EntryView { event: ev, last_seen: now };
                    assert(self.entries@[i as int]@ == en);
                    assert(self@ =~= s0.update(i as int, en));
                    let ii = index_of_key(s0, p);
                    assert(0 <= ii < s0.len() && entry_key(s0[ii]) == p);
                    assert(ii == i as int) by {
                        if ii != i as int {
                            assert(entry_key(s0[ii]) != entry_key(s0[i as int]));
                        }
                    }
                    assert(self@ == record_spec(s0, ev, now));
                    assert forall|a: int, b: int| 0 <= a < b < self@.len() implies entry_key(
                        self@[a],
                    ) != entry_key(self@[b]) by {
                        assert(entry_key(self@[i as int]) == entry_key(s0[i as int]));
                    }
                    assert forall|a: int| 0 <= a < self@.len() implies entry_wf(self@[a]) by {
                        if a == i as int {
                            assert(self@[a] == en);
                            assert(entry_wf(en));
                        } else {
                            assert(self@[a] == s0[a]);
                        }
                    }
                }
                return ;
            }
            proof {
                assert(entry_key(s0[i as int]) == self.entries@[i as int].event.paths@.map_values(
                    |q: String| q@,
                )[0]);
            }
            i = i + 1;
        }
        proof {
            assert(!contains_key(s0, p));
        }
        self.entries.push(PendingEntry { event, last_seen: now });
        proof {
            let en = EntryView { event: ev, last_seen: now };
            assert(self.entries@[s0.len() as int]@ == en);
            assert(self@ =~= s0.push(en));
            assert(self@ == record_spec(s0, ev, now));
            assert forall|a: int, b: int| 0 <= a < b < self@.len() implies entry_key(self@[a])
                != entry_key(self@[b]) by {
                if b == s0.len() {
                    assert(entry_key(self@[a]) == entry_key(s0[a]));
                }
            }
            assert forall|a: int| 0 <= a < self@.len() implies entry_wf(self@[a]) by {
                if a == s0.len() {
                    assert(self@[a] == en);
                    assert(entry_wf(en));
                } else {
                    assert(self@[a] == s0[a]);
                }
            }
        }
    }

    /// Scans the bucket at time `now`: every entry quiet for at least the
    /// debounce interval is removed and its coalesced raw event returned,
    /// in bucket order; the rest stay pending.
    pub fn flush(&mut self, now: u64) -> (out: Vec<RawEvent>)
        requires
            old(self).wf(),
        ensures
            final(self).wf(),
            final(self)@ == kept_entries(old(self)@, now, old(self).interval()),
            out@.map_values(|e: RawEvent| e@) == due_entries(
                old(self)@,
                now,
                old(self).interval(),
            ).map_values(|en: EntryView| en.event),
            forall|i: int| 0 <= i < out@.len() ==> out@[i].wf() && out@[i]@.paths.len() >= 1,
            final(self).interval() == old(self).interval(),
    {
        let ghost s0 = self@;
        let ghost itv = self.interval_ms;
        let mut out: Vec<RawEvent> = Vec::new();
        let mut kept: Vec<PendingEntry> = Vec::new();
        let ghost total = s0.len();
        while self.entries.len() > 0
            invariant
                s0 == old(self)@,
                itv == self.interval_ms,
                total == s0.len(),
                self.entries@.len() <= total,
                self.entries@.map_values(|en: PendingEntry| en@) == s0.subrange(
                    total - self.entries@.len(),
                    total as int,
                ),
                out@.map_values(|e: RawEvent| e@) == due_entries(
                    s0.subrange(0, total - self.entries@.len()),
                    now,
                    itv,
                ).map_values(|en: EntryView| en.event),
                kept@.map_values(|en: PendingEntry| en@) == kept_entries(
                    s0.subrange(0, total - self.entries@.len()),
                    now,
                    itv,
                ),
                forall|i: int| 0 <= i < s0.len() ==> entry_wf(s0[i]),
                forall|i: int| 0 <= i < out@.len() ==> out@[i].wf() && out@[i]@.paths.len() >= 1,
            decreases self.entries@.len(),
        {
            let ghost k = total - self.entries@.len();
            let ghost prefix = s0.subrange(0, k);
            let ghost pre = self.entries@;
            let en = self.entries.remove(0);
            proof {
                assert(en == pre[0]);
                assert(pre.map_values(|e2: PendingEntry| e2@)[0] == pre[0]@);
                assert(en@ == s0[k]);
                assert(self.entries@.map_values(|e2: PendingEntry| e2@) == s0.subrange(
                    k + 1,
                    total as int,
                )) by {
                    assert(self.entries@ == pre.remove(0));
                    lemma_map_values_remove_first(pre, |e2: PendingEntry| e2@);
                    assert(pre.map_values(|e2: PendingEntry| e2@).remove(0) =~= s0.subrange(
                        k + 1,
                        total as int,
                    ));
                }
                assert(s0.subrange(0, k + 1).drop_last() =~= prefix);
                assert(s0.subrange(0, k + 1).last() == s0[k]);
                assert(entry_wf(s0[k]));
            }
            let due_now = now >= en.last_seen && now - en.last_seen >= self.interval_ms;
            let ghost pref1 = s0.subrange(0, k + 1);
            proof {
                assert(due_now == is_due(s0[k], now, itv));
                assert(due_entries(pref1, now, itv) == if is_due(s0[k], now, itv) {
                    due_entries(prefix, now, itv).push(s0[k])
                } else {
                    due_entries(prefix, now, itv)
                });
                assert(kept_entries(pref1, now, itv) == if is_due(s0[k], now, itv) {
                    kept_entries(prefix, now, itv)
                } else {
                    kept_entries(prefix, now, itv).push(s0[k])
                });
            }
            if due_now {
                let ghost out0 = out@;
                let PendingEntry { event, last_seen: _ } = en;
                proof {
                    assert(event@ == s0[k].event);
                }
                out.push(event);
                proof {
                    let x = out@[out0.len() as int];
                    assert(out@ == out0.push(x));
                    assert(x@ == s0[k].event);
                    lemma_map_values_push(out0, x, |e2: RawEvent| e2@);
                    lemma_map_values_push(
                        due_entries(prefix, now, itv),
                        s0[k],
                        |en2: EntryView| en2.event,
                    );
                    assert(out@.map_values(|e2: RawEvent| e2@) == due_entries(
                        pref1,
                        now,
                        itv,
                    ).map_values(|en2: EntryView| en2.event));
                    assert forall|j: int| 0 <= j < out@.len() implies out@[j].wf()
                        && out@[j]@.paths.len() >= 1 by {
                        if j == out0.len() {
                            assert(out@[j] == x);
                            assert(entry_wf(s0[k]));
                        } else {
                            assert(out@[j] == out0[j]);
                        }
                    }
                }
            } else {
                let ghost kept0 = kept@;
                kept.push(en);
                proof {
                    let x = kept@[kept0.len() as int];
                    assert(kept@ == kept0.push(x));
                    assert(x@ == s0[k]);
                    lemma_map_values_push(kept0, x, |en2: PendingEntry| en2@);
                    assert(kept@.map_values(|en2: PendingEntry| en2@) == kept_entries(
                        pref1,
                        now,
                        itv,
                    ));
                }
            }
        }
        proof {
            assert(s0.subrange(0, total as int) =~= s0);
        }
        self.entries = kept;
        proof {
            lemma_scan_unique(s0, now, itv);
            lemma_scan_membership(s0, now, itv);
            assert forall|i: int| 0 <= i < self@.len() implies entry_wf(self@[i]) by {
                assert(kept_entries(s0, now, itv)[i] == self@[i]);
                assert(kept_entries(s0, now, itv).contains(self@[i]));
                assert(s0.contains(self@[i]));
                let j = choose|j: int| 0 <= j < s0.len() && s0[j] == self@[i];
                assert(entry_wf(s0[j]));
            }
        }
        out
    }

    /// Drains the bucket on shutdown: every pending entry is removed and
    /// its coalesced raw event returned, in bucket order, regardless of
    /// how long it has been quiet.
    pub fn drain(&mut self) -> (out: Vec<RawEvent>)
        requires
            old(self).wf(),
        ensures
            final(self).wf(),
            final(self)@ == Seq::<EntryView>::empty(),
            out@.map_values(|e: RawEvent| e@) == old(self)@.map_values(|en: EntryView| en.event),
            forall|i: int| 0 <= i < out@.len() ==> out@[i].wf() && out@[i]@.paths.len() >= 1,
            final(self).interval() == old(self).interval(),
    {
        let ghost s0 = self@;
        let ghost total = s0.len();
        let mut out: Vec<RawEvent> = Vec::new();
        while self.entries.len() > 0
            invariant
                s0 == old(self)@,
                self.interval_ms == old(self).interval_ms,
                total == s0.len(),
                self.entries@.len() <= total,
                self.entries@.map_values(|en: PendingEntry| en@) == s0.subrange(
                    total - self.entries@.len(),
                    total as int,
                ),
                out@.map_values(|e: RawEvent| e@) == s0.subrange(
                    0,
                    total - self.entries@.len(),
                ).map_values(|en: EntryView| en.event),
                forall|i: int| 0 <= i < s0.len() ==> entry_wf(s0[i]),
                forall|i: int| 0 <= i < out@.len() ==> out@[i].wf() && out@[i]@.paths.len() >= 1,
            decreases self.entries@.len(),
        {
            let ghost k = total - self.entries@.len();
            let ghost prefix = s0.subrange(0, k);
            let ghost pre = self.entries@;
            let en = self.entries.remove(0);
            proof {
                assert(en == pre[0]);
                assert(pre.map_values(|e2: PendingEntry| e2@)[0] == pre[0]@);
                assert(en@ == s0[k]);
                assert(self.entries@.map_values(|e2: PendingEntry| e2@) == s0.subrange(
                    k + 1,
                    total as int,
                )) by {
                    assert(self.entries@ == pre.remove(0));
                    lemma_map_values_remove_first(pre, |e2: PendingEntry| e2@);
                    assert(pre.map_values(|e2: PendingEntry| e2@).remove(0) =~= s0.subrange(
                        k + 1,
                        total as int,
                    ));
                }
                assert(entry_wf(s0[k]));
            }
            let ghost out0 = out@;
            let PendingEntry { event, last_seen: _ } = en;
            proof {
                assert(event@ == s0[k].event);
            }
            out.push(event);
            proof {
                let x = out@[out0.len() as int];
                assert(out@ == out0.push(x));
                assert(x@ == s0[k].event);
                lemma_map_values_push(out0, x, |e2: RawEvent| e2@);
                lemma_map_values_push(prefix, s0[k], |en2: EntryView| en2.event);
                assert(prefix.push(s0[k]) =~= s0.subrange(0, k + 1));
                assert(out@.map_values(|e2: RawEvent| e2@) == s0.subrange(0, k + 1).map_values(
                    |en2: EntryView| en2.event,
                ));
                assert forall|j: int| 0 <= j < out@.len() implies out@[j].wf()
                    && out@[j]@.paths.len() >= 1 by {
                    if j == out0.len() {
                        assert(out@[j] == x);
                    } else {
                        assert(out@[j] == out0[j]);
                    }
                }
            }
        }
        proof {
            assert(self@ =~= Seq::<EntryView>::empty());
            assert(s0.subrange(0, total as int) =~= s0);
        }
        out
    }
}

/// Debounce coalescing: three raw modify events for one path, each arriving
/// before the previous one turns due, leave a single pending entry; the two
/// scans run between the arrivals flush nothing for that path, and a scan
/// after the quiet period flushes exactly one coalesced modify event
/// carrying the last-seen event for the path.
pub proof fn lemma_debounce_coalescing(
    s0: Seq<EntryView>,
    e1: RawEventView,
    e2: RawEventView,
    e3: RawEventView,
    t1: u64,
    t2: u64,
    t3: u64,
    u1: u64,
    u2: u64,
    u: u64,
    interval: u64,
)
    requires
        unique_keys(s0),
        e1.paths.len() >= 1,
        e2.paths.len() >= 1,
        e3.paths.len() >= 1,
        e2.paths[0] == e1.paths[0],
        e3.paths[0] == e1.paths[0],
        e1.kind == RawKind::Modify,
        e2.kind == RawKind::Modify,
        e3.kind == RawKind::Modify,
        !contains_key(s0, e1.paths[0]),
        t1 <= t2 <= t3,
        u1 < t1 + interval,
        u2 < t2 + interval,
        u >= t3 + interval,
    ensures
        ({
            let p = e1.paths[0];
            let s1 = record_spec(s0, e1, t1);
            let d1 = due_entries(s1, u1, interval);
            let k1 = kept_entries(s1, u1, interval);
            let s2 = record_spec(k1, e2, t2);
            let d2 = due_entries(s2, u2, interval);
            let k2 = kept_entries(s2, u2, interval);
            let s3 = record_spec(k2, e3, t3);
            let d3 = due_entries(s3, u, interval);
            count_key(d1, p) == 0 && count_key(d2, p) == 0 && count_key(d3, p) == 1 && forall|
                i: int,
            |
                0 <= i < d3.len() && entry_key(d3[i]) == p ==> d3[i] == (EntryView {
                    event: e3,
                    last_seen: t3,
                })
        }),
{
    let p = e1.paths[0];
    let en1 = EntryView { event: e1, last_seen: t1 };
    let en2 = EntryView { event: e2, last_seen: t2 };
    let en3 = EntryView { event: e3, last_seen: t3 };

    let s1 = record_spec(s0, e1, t1);
    assert(s1 == s0.push(en1));
    assert(unique_keys(s1)) by {
        assert forall|a: int, b: int| 0 <= a < b < s1.len() implies entry_key(s1[a]) != entry_key(
            s1[b],
        ) by {
            if b == s0.len() {
                assert(entry_key(s1[a]) == entry_key(s0[a]));
                assert(contains_key(s0, entry_key(s0[a])));
            }
        }
    }

    let d1 = due_entries(s1, u1, interval);
    let k1 = kept_entries(s1, u1, interval);
    assert(s1.drop_last() =~= s0);
    assert(s1.last() == en1);
    assert(!is_due(en1, u1, interval));
    assert(d1 == due_entries(s0, u1, interval));
    assert(k1 == kept_entries(s0, u1, interval).push(en1));

    lemma_scan_unique(s0, u1, interval);
    assert(!contains_key(d1, p));
    lemma_count_key_zero(d1, p);

    let k0 = kept_entries(s0, u1, interval);
    assert(!contains_key(k0, p));
    assert(unique_keys(k1)) by {
        assert forall|a: int, b: int| 0 <= a < b < k1.len() implies entry_key(k1[a]) != entry_key(
            k1[b],
        ) by {
            if b == k0.len() {
                assert(entry_key(k1[a]) == entry_key(k0[a]));
                assert(contains_key(k0, entry_key(k0[a])));
            }
        }
    }

    let s2 = record_spec(k1, e2, t2);
    assert(contains_key(k1, p)) by {
        assert(entry_key(k1[k0.len() as int]) == p);
    }
    assert(index_of_key(k1, p) == k0.len()) by {
        let ii = index_of_key(k1, p);
        if ii != k0.len() {
            assert(entry_key(k1[ii]) == entry_key(k0[ii]));
            assert(contains_key(k0, p));
        }
    }
    assert(s2 =~= k0.push(en2));

    let d2 = due_entries(s2, u2, interval);
    let k2 = kept_entries(s2, u2, interval);
    assert(s2.drop_last() =~= k0);
    assert(s2.last() == en2);
    assert(!is_due(en2, u2, interval));
    assert(d2 == due_entries(k0, u2, interval));
    assert(k2 == kept_entries(k0, u2, interval).push(en2));

    lemma_scan_unique(k0, u2, interval);
    assert(!contains_key(d2, p));
    lemma_count_key_zero(d2, p);

    let k00 = kept_entries(k0, u2, interval);
    assert(!contains_key(k00, p));
    assert(unique_keys(k2)) by {
        assert forall|a: int, b: int| 0 <= a < b < k2.len() implies entry_key(k2[a]) != entry_key(
            k2[b],
        ) by {
            if b == k00.len() {
                assert(entry_key(k2[a]) == entry_key(k00[a]));
                assert(contains_key(k00, entry_key(k00[a])));
            }
        }
    }

    let s3 = record_spec(k2, e3, t3);
    assert(contains_key(k2, p)) by {
        assert(entry_key(k2[k00.len() as int]) == p);
    }
    assert(index_of_key(k2, p) == k00.len()) by {
        let ii = index_of_key(k2, p);
        if ii != k00.len() {
            assert(entry_key(k2[ii]) == entry_key(k00[ii]));
            assert(contains_key(k00, p));
        }
    }
    assert(s3 =~= k00.push(en3));

    let d3 = due_entries(s3, u, interval);
    assert(s3.drop_last() =~= k00);
    assert(s3.last() == en3);
    assert(is_due(en3, u, interval));
    let d00 = due_entries(k00, u, interval);
    assert(d3 == d00.push(en3));

    lemma_scan_unique(k00, u, interval);
    assert(!contains_key(d00, p));
    lemma_count_key_zero(d00, p);
    assert(count_key(d3, p) == count_key(d00, p) + 1) by {
        assert(d3.drop_last() =~= d00);
        assert(d3.last() == en3);
    }
    assert forall|i: int| 0 <= i < d3.len() && entry_key(d3[i]) == p implies d3[i] == en3 by {
        if i < d00.len() {
            assert(entry_key(d00[i]) == p);
            assert(contains_key(d00, p));
        }
    }
}

} // verus!
