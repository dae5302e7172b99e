//! Raw and semantic event types, message rendering, and the ignore filter.

use vstd::prelude::*;
use vstd::string::*;

verus! {

/// The kind of a raw notification, as the observation mechanism reports it.
#[derive(Clone, Copy, PartialEq, Eq, Structural, Debug)]
pub enum RawKind {
    Create,
    Modify,
    Remove,
    Rename,
    Other,
}

/// The semantic classification of a change.
#[derive(Clone, Copy, PartialEq, Eq, Structural, Debug)]
pub enum ChangeKind {
    Created,
    Deleted,
    Modified,
}

/// A raw filesystem notification: a kind and its paths (two for a rename,
/// one otherwise).
pub struct RawEvent {
    pub kind: RawKind,
    pub paths: Vec<String>,
}

/// The mathematical value of a [`RawEvent`].
pub struct RawEventView {
    pub kind: RawKind,
    pub paths: Seq<Seq<char>>,
}

impl View for RawEvent {
    type V = RawEventView;

    open spec fn view(&self) -> RawEventView {
        RawEventView { kind: self.kind, paths: self.paths@.map_values(|p: String| p@) }
    }
}

impl RawEventView {
    /// A raw event is well formed when it carries two paths for a rename and
    /// at least one path for a create, modify or remove.
    pub open spec fn wf(self) -> bool {
        match self.kind {
            RawKind::Rename => self.paths.len() == 2,
            RawKind::Other => true,
            _ => self.paths.len() >= 1,
        }
    }
}

impl RawEvent {
    pub open spec fn wf(&self) -> bool {
        self@.wf()
    }

    /// Builds a single-path raw event.
    pub fn single(kind: RawKind, path: String) -> (e: RawEvent)
        ensures
            e@.kind == kind,
            e@.paths == seq![path@],
            kind != RawKind::Rename ==> e.wf(),
    {
        let mut paths: Vec<String> = Vec::new();
        paths.push(path);
        let e = RawEvent { kind, paths };
        proof {
            assert(e@.paths =~= seq![path@]);
        }
        e
    }

    /// Builds a two-path rename event, old path first.
    pub fn rename(old_path: String, new_path: String) -> (e: RawEvent)
        ensures
            e@.kind == RawKind::Rename,
            e@.paths == seq![old_path@, new_path@],
            e.wf(),
    {
        let mut paths: Vec<String> = Vec::new();
        paths.push(old_path);
        paths.push(new_path);
        let e = RawEvent { kind: RawKind::Rename, paths };
        proof {
            assert(e@.paths =~= seq![old_path@, new_path@]);
        }
        e
    }
}

/// An interpreted change: its kind, the path it concerns, and the rendered
/// message that serves as the deduplication key.
pub struct ChangeEvent {
    pub kind: ChangeKind,
    pub path: String,
    pub message: String,
}

/// The mathematical value of a [`ChangeEvent`].
pub struct ChangeEventView {
    pub kind: ChangeKind,
    pub path: Seq<char>,
    pub message: Seq<char>,
}

impl View for ChangeEvent {
    type V = ChangeEventView;

    open spec fn view(&self) -> ChangeEventView {
        ChangeEventView { kind: self.kind, path: self.path@, message: self.message@ }
    }
}

/// The message rendered for a change of the given kind at the given path.
pub open spec fn message_of(kind: ChangeKind, path: Seq<char>) -> Seq<char> {
    match kind {
        ChangeKind::Created => "A new file/folder was created at: "@ + path,
        ChangeKind::Deleted => "A file/folder was deleted from: "@ + path,
        ChangeKind::Modified => "A file/folder was modified at: "@ + path,
    }
}

/// Renders the human-readable message for a change; the rendering is the
/// deduplication key downstream.
pub fn render_message(kind: ChangeKind, path: &String) -> (m: String)
    ensures
        m@ == message_of(kind, path@),
{
    let prefix: &str = match kind {
        ChangeKind::Created => "A new file/folder was created at: ",
        ChangeKind::Deleted => "A file/folder was deleted from: ",
        ChangeKind::Modified => "A file/folder was modified at: ",
    };
    let mut m = prefix.to_owned();
    m.append(path.as_str());
    m
}

/// Whether `s` ends with `suffix`.
pub open spec fn has_suffix(s: Seq<char>, suffix: Seq<char>) -> bool {
    s.len() >= suffix.len() && s.subrange(s.len() - suffix.len(), s.len() as int) == suffix
}

/// Whether some suffix in `suffixes` matches the end of `path`.
pub open spec fn ignored(path: Seq<char>, suffixes: Seq<Seq<char>>) -> bool {
    exists|i: int| 0 <= i < suffixes.len() && has_suffix(path, suffixes[i])
}

/// Whether every path of the event matches the ignore filter; such events
/// are dropped before any other processing.
pub open spec fn event_ignored(e: RawEventView, suffixes: Seq<Seq<char>>) -> bool {
    e.paths.len() > 0 && forall|i: int| 0 <= i < e.paths.len() ==> ignored(e.paths[i], suffixes)
}

/// Compares the end of `s` against `suffix`, character by character.
pub fn str_ends_with(s: &str, suffix: &str) -> (r: bool)
    ensures
        r == has_suffix(s@, suffix@),
{
    let n = s.unicode_len();
    let m = suffix.unicode_len();
    if m > n {
        return false;
    }
    let mut i: usize = 0;
    while i < m
        invariant
            m <= n,
            n == s@.len(),
            m == suffix@.len(),
            i <= m,
            forall|j: int| 0 <= j < i ==> s@[n - m + j] == suffix@[j],
        decreases m - i,
    {
        if s.get_char(n - m + i) != suffix.get_char(i) {
            proof {
                assert(s@.subrange(n - m, n as int)[i as int] == s@[n - m + i]);
            }
            return false;
        }
        i = i + 1;
    }
    proof {
        assert(s@.subrange(n - m, n as int) =~= suffix@);
    }
    true
}

/// Whether `path` ends with one of the configured ignore suffixes.
pub fn is_ignored(path: &String, suffixes: &Vec<String>) -> (r: bool)
    ensures
        r == ignored(path@, suffixes@.map_values(|x: String| x@)),
{
    let ghost sv = suffixes@.map_values(|x: String| x@);
    let mut i: usize = 0;
    while i < suffixes.len()
        invariant
            sv == suffixes@.map_values(|x: String| x@),
            i <= suffixes.len(),
            forall|j: int| 0 <= j < i ==> !has_suffix(path@, sv[j]),
        decreases suffixes.len() - i,
    {
        if str_ends_with(path.as_str(), suffixes[i].as_str()) {
            proof {
                assert(has_suffix(path@, sv[i as int]));
            }
            return true;
        }
        i = i + 1;
    }
    false
}

} // verus!
