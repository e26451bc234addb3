//! Watching: the events, the control of a running watch, and what a watch makes of system events.

use std::sync::mpsc::Sender;

use vstd::prelude::*;

verus! {

/// A sender of the standard library's channels.
#[verifier::external_type_specification]
#[verifier::external_body]
#[verifier::reject_recursive_types(T)]
pub struct ExSender<T>(Sender<T>);

/// What happened to a file.
#[derive(Clone, Copy, Debug, PartialEq, Eq, Structural)]
pub enum FileChangeKind {
    Created,
    Modified,
    Removed,
}

/// A change of a file.
#[derive(Debug)]
pub struct FileChangeEvent {
    pub file_path: String,
    pub event_kind: FileChangeKind,
}

impl Clone for FileChangeEvent {
    fn clone(&self) -> (r: Self)
        ensures
            r == *self,
    {
        FileChangeEvent { file_path: self.file_path.clone(), event_kind: self.event_kind }
    }
}

/// A change of what a running watch covers.
pub enum WatchOp {
    Add(String),
    Remove(String),
}

/// The control of a running watch: a channel for changes, if the watch takes any.
pub struct WatchHandle {
    pub control_tx: Option<Sender<WatchOp>>,
}

impl WatchHandle {
    /// The handle of a watch that takes no changes.
    pub fn empty() -> (r: Self)
        ensures
            r.control_tx is None,
    {
        WatchHandle { control_tx: None }
    }

    /// The handle of a watch that takes changes from a channel.
    pub fn new(tx: Sender<WatchOp>) -> (r: Self)
        ensures
            r.control_tx == Some(tx),
    {
        WatchHandle { control_tx: Some(tx) }
    }
}

/// A way to watch.
#[derive(Clone, Copy, Debug, PartialEq, Eq, Structural)]
pub enum Backend {
    /// Mount-wide, without file names, for privileged processes.
    Fanotify,
    /// The system's directory notifications.
    Notify,
}

/// How a system is watched.
pub trait PlatformTracker {
    /// The name of the tracker.
    spec fn tracker_name(&self) -> Seq<char>;

    /// The ways to watch, in the order in which they are tried; the first that works is used.
    spec fn attempts(&self) -> Seq<Backend>;

    /// The name of the tracker.
    fn name(&self) -> (r: &'static str)
        ensures
            r@ == self.tracker_name(),
    ;

    /// The ways to watch, in the order in which they are tried; the first that works is used.
    fn start_watching(&self) -> (r: Vec<Backend>)
        ensures
            r@ == self.attempts(),
            r@.len() > 0,
            r@.last() == Backend::Notify,
    ;
}

/// The kinds of system events.
#[derive(Clone, Copy, Debug, PartialEq, Eq, Structural)]
pub enum SystemEventKind {
    Create,
    Modify,
    Remove,
    Other,
}

/// What a kind of system event means for a file, if anything.
pub open spec fn change_of(kind: SystemEventKind) -> Option<FileChangeKind> {
    match kind {
        SystemEventKind::Create => Some(FileChangeKind::Created),
        SystemEventKind::Modify => Some(FileChangeKind::Modified),
        SystemEventKind::Remove => Some(FileChangeKind::Removed),
        SystemEventKind::Other => None,
    }
}

/// The changes that a system event with these paths means: one for each path, in order, or none.
pub fn change_events(kind: SystemEventKind, paths: Vec<String>) -> (r: Vec<FileChangeEvent>)
    ensures
        change_of(kind) is None ==> r@.len() == 0,
        change_of(kind) matches Some(change) ==> {
            &&& r@.len() == paths@.len()
            &&& forall|i: int|
                0 <= i < r@.len() ==> #[trigger] r@[i] == (FileChangeEvent {
                    file_path: paths@[i],
                    event_kind: change,
                })
        },
{
    let change: FileChangeKind = match kind {
        SystemEventKind::Create => FileChangeKind::Created,
        SystemEventKind::Modify => FileChangeKind::Modified,
        SystemEventKind::Remove => FileChangeKind::Removed,
        SystemEventKind::Other => {
            return Vec::new();
        },
    };
    let mut events: Vec<FileChangeEvent> = Vec::new();
    for path in it: paths
        invariant
            it.seq() == paths@,
            events@.len() == it.index(),
            forall|i: int|
                0 <= i < events@.len() ==> #[trigger] events@[i] == (FileChangeEvent {
                    file_path: paths@[i],
                    event_kind: change,
                }),
    {
        events.push(FileChangeEvent { file_path: path, event_kind: change });
    }
    events
}

/// The change that a mount-wide event means: one without a file name.
pub fn mount_event() -> (r: FileChangeEvent)
    ensures
        r.file_path@ == Seq::<char>::empty(),
        r.event_kind == FileChangeKind::Modified,
{
    FileChangeEvent { file_path: String::new(), event_kind: FileChangeKind::Modified }
}

/// What a running watch does about a change of what it covers: a directory that does not exist is
/// not added.
pub fn apply_op(op: WatchOp, exists_on_disk: bool) -> (r: Option<WatchOp>)
    ensures
        r == (if op is Add && !exists_on_disk {
            None
        } else {
            Some(op)
        }),
{
    match op {
        WatchOp::Add(path) => if exists_on_disk {
            Some(WatchOp::Add(path))
        } else {
            None
        },
        WatchOp::Remove(path) => Some(WatchOp::Remove(path)),
    }
}

/// Creations, changes and removals mean what they say, and nothing else means anything.
pub proof fn law_system_events(kind: SystemEventKind)
    ensures
        change_of(kind) == Some(FileChangeKind::Created) <==> kind == SystemEventKind::Create,
        change_of(kind) == Some(FileChangeKind::Modified) <==> kind == SystemEventKind::Modify,
        change_of(kind) == Some(FileChangeKind::Removed) <==> kind == SystemEventKind::Remove,
        change_of(kind) is None <==> kind == SystemEventKind::Other,
{
}

} // verus!
