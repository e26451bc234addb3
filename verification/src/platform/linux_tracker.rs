//! Watching on Linux: fanotify where the process may, inotify elsewhere.

use vstd::prelude::*;

use crate::platform::tracker::Backend;
use crate::platform::tracker::PlatformTracker;

verus! {

/// Tries fanotify first where a probe found it usable, and falls back to inotify.
pub struct LinuxTracker {
    use_fanotify: bool,
}

impl LinuxTracker {
    /// The probe found fanotify usable.
    pub closed spec fn uses_fanotify(&self) -> bool {
        self.use_fanotify
    }

    /// A tracker after the probe for fanotify.
    pub fn new(use_fanotify: bool) -> (r: Self)
        ensures
            r.uses_fanotify() == use_fanotify,
    {
        LinuxTracker { use_fanotify }
    }
}

impl PlatformTracker for LinuxTracker {
    open spec fn tracker_name(&self) -> Seq<char> {
        if self.uses_fanotify() {
            "linux-fanotify"@
        } else {
            "linux-inotify"@
        }
    }

    open spec fn attempts(&self) -> Seq<Backend> {
        if self.uses_fanotify() {
            seq![Backend::Fanotify, Backend::Notify]
        } else {
            seq![Backend::Notify]
        }
    }

    fn name(&self) -> (r: &'static str) {
        if self.use_fanotify {
            "linux-fanotify"
        } else {
            "linux-inotify"
        }
    }

    fn start_watching(&self) -> (r: Vec<Backend>) {
        let mut r: Vec<Backend> = Vec::new();
        if self.use_fanotify {
            r.push(Backend::Fanotify);
        }
        r.push(Backend::Notify);
        assert(r@ =~= self.attempts());
        r
    }
}

/// Mount-wide watching is tried first where the probe found it usable, and only there; directory
/// notifications are what is left in either case.
pub proof fn law_backends_in_order(tracker: LinuxTracker)
    ensures
        tracker.attempts().last() == Backend::Notify,
        tracker.uses_fanotify() ==> tracker.attempts().len() == 2 && tracker.attempts()[0]
            == Backend::Fanotify,
        !tracker.uses_fanotify() ==> tracker.attempts().len() == 1,
{
}

} // verus!
