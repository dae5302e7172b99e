//! The deduplicator: suppresses repeated messages within a sliding window.
//!
//! The state is a set of already-seen messages together with the start of
//! the current window. A candidate message is suppressed when it was already
//! seen; otherwise it is recorded and emitted. After the membership check,
//! regardless of its outcome, the whole set is cleared once the window has
//! been open for longer than the configured width. The clear is a coarse,
//! unconditional periodic reset, not a per-message expiry.

use vstd::prelude::*;

verus! {

/// The mathematical value of a [`RecentSet`].
#[verifier::ext_equal]
pub struct RecentSetView {
    /// The messages recorded since the window was last cleared.
    pub seen: Set<Seq<char>>,
    /// When the current window started, in milliseconds.
    pub window_start: u64,
    /// Width of the window, in milliseconds.
    pub window_ms: u64,
}

/// Whether a candidate message would be emitted from state `s`: it is
/// emitted exactly when it has not been seen in the current window.
pub open spec fn emit_decision(s: RecentSetView, m: Seq<char>) -> bool {
    !s.seen.contains(m)
}

/// Whether a call at time `now` clears the window: the window has been open
/// for more than its width.
pub open spec fn clear_due(s: RecentSetView, now: u64) -> bool {
    now > s.window_start + s.window_ms
}

/// The state after one deduplication step: the message is recorded, then
/// the window-clear check runs, wiping everything (the new message
/// included) when the window has expired.
pub open spec fn dedup_step(s: RecentSetView, m: Seq<char>, now: u64) -> RecentSetView {
    if clear_due(s, now) {
        RecentSetView { seen: Set::empty(), window_start: now, window_ms: s.window_ms }
    } else {
        RecentSetView { seen: s.seen.insert(m), window_start: s.window_start, window_ms: s.window_ms }
    }
}

/// The set of recently emitted messages, owned by the deduplicator.
pub struct RecentSet {
    seen: Vec<String>,
    window_start: u64,
    window_ms: u64,
}

impl View for RecentSet {
    type V = RecentSetView;

    closed spec fn view(&self) -> RecentSetView {
        RecentSetView {
            seen: self.seen@.map_values(|x: String| x@).to_set(),
            window_start: self.window_start,
            window_ms: self.window_ms,
        }
    }
}

/// Pushing onto a sequence inserts into the set of its elements.
proof fn lemma_to_set_push<A>(s: Seq<A>, x: A)
    ensures
        s.push(x).to_set() == s.to_set().insert(x),
{
    assert forall|a: A| s.push(x).to_set().contains(a) implies s.to_set().insert(x).contains(
        a,
    ) by {
        let i = choose|i: int| 0 <= i < s.push(x).len() && s.push(x)[i] == a;
        if i < s.len() {
            assert(s[i] == a);
        }
    }
    assert forall|a: A| s.to_set().insert(x).contains(a) implies s.push(x).to_set().contains(
        a,
    ) by {
        if a == x {
            assert(s.push(x)[s.len() as int] == a);
        } else {
            let i = choose|i: int| 0 <= i < s.len() && s[i] == a;
            assert(s.push(x)[i] == a);
        }
    }
    assert(s.push(x).to_set() =~= s.to_set().insert(x));
}

/// Whether `v`, viewed as a sequence of messages, contains `m`.
fn vec_contains(v: &Vec<String>, m: &String) -> (r: bool)
    ensures
        r == v@.map_values(|x: String| x@).contains(m@),
{
    let ghost mv = v@.map_values(|x: String| x@);
    let mut i: usize = 0;
    while i < v.len()
        invariant
            mv == v@.map_values(|x: String| x@),
            i <= v.len(),
            forall|j: int| 0 <= j < i ==> mv[j] != m@,
        decreases v.len() - i,
    {
        if v[i] == *m {
            proof {
                assert(mv[i as int] == v@[i as int]@);
            }
            return true;
        }
        proof {
            assert(mv[i as int] == v@[i as int]@);
        }
        i = i + 1;
    }
    false
}

impl RecentSet {
    /// The set never holds two copies of one message.
    pub closed spec fn wf(&self) -> bool {
        forall|i: int, j: int|
            0 <= i < j < self.seen@.len() ==> self.seen@[i]@ != self.seen@[j]@
    }

    /// An empty set whose window opens at `start`.
    pub fn new(start: u64, window_ms: u64) -> (s: RecentSet)
        ensures
            s@.seen == Set::<Seq<char>>::empty(),
            s@.window_start == start,
            s@.window_ms == window_ms,
            s.wf(),
    {
        let s = RecentSet { seen: Vec::new(), window_start: start, window_ms };
        proof {
            assert(s@.seen =~= Set::<Seq<char>>::empty());
        }
        s
    }

    /// Decides whether `message` is emitted at time `now`: true exactly when
    /// it was not seen since the window was last cleared. The message is
    /// recorded, and the window-clear check then runs regardless of the
    /// decision.
    pub fn should_emit(&mut self, message: &String, now: u64) -> (emit: bool)
        requires
            old(self).wf(),
        ensures
            final(self).wf(),
            emit == emit_decision(old(self)@, message@),
            final(self)@ == dedup_step(old(self)@, message@, now),
    {
        let ghost old_view = self@;
        let already = vec_contains(&self.seen, message);
        proof {
            assert(already == old_view.seen.contains(message@));
        }
        if !already {
            self.seen.push(message.clone());
            proof {
                let oldm = old(self).seen@.map_values(|x: String| x@);
                assert forall|i: int| 0 <= i < old(self).seen@.len() implies old(
                    self,
                ).seen@[i]@ != message@ by {
                    assert(oldm[i] == old(self).seen@[i]@);
                }
                assert(self.seen@.map_values(|x: String| x@) =~= oldm.push(message@));
                lemma_to_set_push(oldm, message@);
                assert(self@.seen == old_view.seen.insert(message@));
                assert(self.wf());
            }
        } else {
            proof {
                assert(self@.seen =~= old_view.seen.insert(message@));
            }
        }
        if now > self.window_start && now - self.window_start > self.window_ms {
            self.seen.clear();
            self.window_start = now;
            proof {
                assert(self@.seen =~= Set::<Seq<char>>::empty());
                assert(self@ =~= dedup_step(old_view, message@, now));
            }
        } else {
            proof {
                assert(self@ =~= dedup_step(old_view, message@, now));
            }
        }
        !already
    }
}

/// Idempotent suppression: when a fresh message is offered twice within the
/// same window, the first call emits it and the second suppresses it.
pub proof fn lemma_idempotent_suppression(s: RecentSetView, m: Seq<char>, t1: u64, t2: u64)
    requires
        !s.seen.contains(m),
        s.window_start <= t1 <= t2 <= s.window_start + s.window_ms,
    ensures
        emit_decision(s, m),
        !emit_decision(dedup_step(s, m, t1), m),
{
    assert(dedup_step(s, m, t1).seen.contains(m));
}

/// Window reset: a message emitted once becomes emittable again as soon as
/// any later call finds the window expired and clears the set.
pub proof fn lemma_window_reset(s: RecentSetView, m: Seq<char>, m2: Seq<char>, t1: u64, t2: u64)
    requires
        !s.seen.contains(m),
        s.window_start <= t1 <= s.window_start + s.window_ms,
        t2 > s.window_start + s.window_ms,
    ensures
        emit_decision(s, m),
        emit_decision(dedup_step(dedup_step(s, m, t1), m2, t2), m),
{
    let s1 = dedup_step(s, m, t1);
    assert(s1.window_start == s.window_start);
    assert(clear_due(s1, t2));
    assert(dedup_step(s1, m2, t2).seen =~= Set::<Seq<char>>::empty());
}

} // verus!
