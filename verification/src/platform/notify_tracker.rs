//! Watching through the system's own directory notifications.

use vstd::prelude::*;

use crate::platform::tracker::Backend;
use crate::platform::tracker::PlatformTracker;

verus! {

/// The system that the client runs on.
#[derive(Clone, Copy, Debug, PartialEq, Eq, Structural)]
pub enum HostOs {
    Macos,
    Windows,
    Other,
}

/// Watches through the system's own directory notifications.
pub struct NotifyTracker {
    os: HostOs,
}

impl NotifyTracker {
    /// The system that the tracker is for.
    pub closed spec fn host(&self) -> HostOs {
        self.os
    }

    /// The tracker for a system.
    pub fn new(os: HostOs) -> (r: Self)
        ensures
            r.host() == os,
    {
        NotifyTracker { os }
    }
}

impl PlatformTracker for NotifyTracker {
    open spec fn tracker_name(&self) -> Seq<char> {
        match self.host() {
            HostOs::Macos => "macos-fsevents"@,
            HostOs::Windows => "windows-readdirchanges"@,
            HostOs::Other => "notify-generic"@,
        }
    }

    open spec fn attempts(&self) -> Seq<Backend> {
        seq![Backend::Notify]
    }

    fn name(&self) -> (r: &'static str) {
        match self.os {
            HostOs::Macos => "macos-fsevents",
            HostOs::Windows => "windows-readdirchanges",
            HostOs::Other => "notify-generic",
        }
    }

    fn start_watching(&self) -> (r: Vec<Backend>) {
        let mut r: Vec<Backend> = Vec::new();
        r.push(Backend::Notify);
        assert(r@ =~= self.attempts());
        r
    }
}

} // verus!
