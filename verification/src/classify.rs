//! The classifier: maps a raw event to its semantic change events.
//!
//! A create, remove or modify concerns the event's only path; a modify is
//! disambiguated by probing whether the path still exists at classification
//! time, because on some platforms a raw modify notification is the only
//! signal delivered for a deletion. A rename synthesizes a deletion of the
//! old path and a creation of the new one. Paths matching the ignore filter
//! yield nothing.

use vstd::prelude::*;
use crate::events::{
    ChangeEvent, ChangeEventView, ChangeKind, RawEvent, RawEventView, RawKind, event_ignored,
    ignored, is_ignored, message_of, render_message,
};

verus! {

/// The change event of the given kind at the given path, with its rendered
/// message.
pub open spec fn change_of(kind: ChangeKind, path: Seq<char>) -> ChangeEventView {
    ChangeEventView { kind, path, message: message_of(kind, path) }
}

/// The change events synthesized from one raw event. `exists_now` is the
/// outcome of probing the filesystem for the event's path at classification
/// time: a raw modify whose path no longer exists is a deletion. Paths
/// matching the ignore filter are dropped; an unrecognized raw kind yields
/// nothing.
pub open spec fn classify_spec(e: RawEventView, exists_now: bool, ign: Seq<Seq<char>>) -> Seq<
    ChangeEventView,
> {
    match e.kind {
        RawKind::Create => if ignored(e.paths[0], ign) {
            Seq::empty()
        } else {
            seq![change_of(ChangeKind::Created, e.paths[0])]
        },
        RawKind::Modify => if ignored(e.paths[0], ign) {
            Seq::empty()
        } else if exists_now {
            seq![change_of(ChangeKind::Modified, e.paths[0])]
        } else {
            seq![change_of(ChangeKind::Deleted, e.paths[0])]
        },
        RawKind::Remove => if ignored(e.paths[0], ign) {
            Seq::empty()
        } else {
            seq![change_of(ChangeKind::Deleted, e.paths[0])]
        },
        RawKind::Rename => (if ignored(e.paths[0], ign) {
            Seq::<ChangeEventView>::empty()
        } else {
            seq![change_of(ChangeKind::Deleted, e.paths[0])]
        }) + (if ignored(e.paths[1], ign) {
            Seq::<ChangeEventView>::empty()
        } else {
            seq![change_of(ChangeKind::Created, e.paths[1])]
        }),
        RawKind::Other => Seq::empty(),
    }
}

/// Classifies one raw event. `exists_now` must be the outcome of probing
/// the filesystem for the event's first path at classification time; a
/// probe failure counts as "does not exist".
pub fn classify(event: &RawEvent, exists_now: bool, ignore_suffixes: &Vec<String>) -> (out: Vec<
    ChangeEvent,
>)
    requires
        event.wf(),
    ensures
        out@.map_values(|c: ChangeEvent| c@) == classify_spec(
            event@,
            exists_now,
            ignore_suffixes@.map_values(|x: String| x@),
        ),
{
    let ghost ign = ignore_suffixes@.map_values(|x: String| x@);
    let mut out: Vec<ChangeEvent> = Vec::new();
    match event.kind {
        RawKind::Create => {
            proof {
                assert(event@.paths.len() == event.paths@.len());
            }
            if !is_ignored(&event.paths[0], ignore_suffixes) {
                let path = event.paths[0].clone();
                let message = render_message(ChangeKind::Created, &path);
                out.push(ChangeEvent { kind: ChangeKind::Created, path, message });
            }
            proof {
                assert(event@.paths[0] == event.paths@[0]@);
                assert(out@.map_values(|c: ChangeEvent| c@) =~= classify_spec(
                    event@,
                    exists_now,
                    ign,
                ));
            }
        },
        RawKind::Modify => {
            proof {
                assert(event@.paths.len() == event.paths@.len());
            }
            if !is_ignored(&event.paths[0], ignore_suffixes) {
                let path = event.paths[0].clone();
                let kind = if exists_now {
                    ChangeKind::Modified
                } else {
                    ChangeKind::Deleted
                };
                let message = render_message(kind, &path);
                out.push(ChangeEvent { kind, path, message });
            }
            proof {
                assert(event@.paths[0] == event.paths@[0]@);
                assert(out@.map_values(|c: ChangeEvent| c@) =~= classify_spec(
                    event@,
                    exists_now,
                    ign,
                ));
            }
        },
        RawKind::Remove => {
            proof {
                assert(event@.paths.len() == event.paths@.len());
            }
            if !is_ignored(&event.paths[0], ignore_suffixes) {
                let path = event.paths[0].clone();
                let message = render_message(ChangeKind::Deleted, &path);
                out.push(ChangeEvent { kind: ChangeKind::Deleted, path, message });
            }
            proof {
                assert(event@.paths[0] == event.paths@[0]@);
                assert(out@.map_values(|c: ChangeEvent| c@) =~= classify_spec(
                    event@,
                    exists_now,
                    ign,
                ));
            }
        },
        RawKind::Rename => {
            proof {
                assert(event@.paths.len() == event.paths@.len());
            }
            if !is_ignored(&event.paths[0], ignore_suffixes) {
                let path = event.paths[0].clone();
                let message = render_message(ChangeKind::Deleted, &path);
                out.push(ChangeEvent { kind: ChangeKind::Deleted, path, message });
            }
            if !is_ignored(&event.paths[1], ignore_suffixes) {
                let path = event.paths[1].clone();
                let message = render_message(ChangeKind::Created, &path);
                out.push(ChangeEvent { kind: ChangeKind::Created, path, message });
            }
            proof {
                assert(event@.paths[0] == event.paths@[0]@);
                assert(event@.paths[1] == event.paths@[1]@);
                assert(out@.map_values(|c: ChangeEvent| c@) =~= classify_spec(
                    event@,
                    exists_now,
                    ign,
                ));
            }
        },
        RawKind::Other => {
            proof {
                assert(out@.map_values(|c: ChangeEvent| c@) =~= classify_spec(
                    event@,
                    exists_now,
                    ign,
                ));
            }
        },
    }
    out
}

/// Modify-versus-delete disambiguation: a raw modify for a path that still
/// exists at classification time classifies as a modification; one whose
/// path no longer exists classifies as a deletion.
pub proof fn lemma_modify_disambiguation(e: RawEventView, ign: Seq<Seq<char>>)
    requires
        e.wf(),
        e.kind == RawKind::Modify,
        !ignored(e.paths[0], ign),
    ensures
        classify_spec(e, true, ign) == seq![change_of(ChangeKind::Modified, e.paths[0])],
        classify_spec(e, false, ign) == seq![change_of(ChangeKind::Deleted, e.paths[0])],
{
}

/// Ignore filter at the classifier: an event all of whose paths match the
/// ignore filter yields no change event at all.
pub proof fn lemma_ignore_filter(e: RawEventView, exists_now: bool, ign: Seq<Seq<char>>)
    requires
        e.wf(),
        event_ignored(e, ign),
    ensures
        classify_spec(e, exists_now, ign) == Seq::<ChangeEventView>::empty(),
{
    match e.kind {
        RawKind::Rename => {
            assert(ignored(e.paths[0], ign));
            assert(ignored(e.paths[1], ign));
            assert(classify_spec(e, exists_now, ign) =~= Seq::<ChangeEventView>::empty());
        },
        _ => {
            if e.paths.len() >= 1 {
                assert(ignored(e.paths[0], ign));
            }
        },
    }
}

} // verus!
