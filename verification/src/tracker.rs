//! The running watch: which events count, and where a changed file is continued.

use vstd::prelude::*;

use crate::config::WatchConfig;
use crate::ledger::FileStat;
use crate::ledger::LocalLedger;
use crate::numbers::to_unsigned64;
use crate::paths::same_path;
use crate::platform::tracker::FileChangeEvent;
use crate::platform::tracker::FileChangeKind;
use crate::platform::tracker::WatchOp;
use crate::segment::parse_segment_seq;
use crate::table::find;
use crate::table::put;
use crate::table::Record;
use crate::text::has_prefix;
use crate::text::same_text;

verus! {

use crate::config::excluded;
use crate::ledger::committed;
use crate::ledger::position_of;
use crate::ledger::unwatching;
use crate::ledger::watching;
use crate::ledger::LedgerView;
use crate::numbers::unsigned64;
use crate::paths::same_path_spec;
use crate::segment::segment_seq;
use crate::table::distinct;
use crate::table::table;
use crate::text::texts;

/// How a changed file is sent.
#[derive(Clone, Copy, Debug, PartialEq, Eq, Structural)]
pub enum RotationSignal {
    /// From the offset on.
    Append(u64),
    /// From the start.
    ResetAndRechunk,
}

/// Decides whether a changed file was appended to.
pub struct RotationAuditor;

/// A file was appended to if it is still the same one and has grown beyond what was sent; one that
/// is gone, was replaced, truncated or overwritten in place is sent anew.
pub open spec fn audited(
    file: Option<FileStat>,
    last_offset: i64,
    recorded_dev: u64,
    recorded_ino: u64,
) -> RotationSignal {
    match file {
        Some(stat) if stat.dev == recorded_dev && stat.ino == recorded_ino && stat.size > unsigned64(
            last_offset,
        ) => RotationSignal::Append(unsigned64(last_offset)),
        _ => RotationSignal::ResetAndRechunk,
    }
}

impl RotationAuditor {
    /// Decides how a changed file is sent. `file` is none where the file is gone or unreadable.
    pub fn audit_file_change(
        file: Option<FileStat>,
        last_offset: i64,
        recorded_dev: u64,
        recorded_ino: u64,
    ) -> (r: RotationSignal)
        ensures
            r == audited(file, last_offset, recorded_dev, recorded_ino),
    {
        match file {
            None => RotationSignal::ResetAndRechunk,
            Some(stat) => {
                if stat.dev != recorded_dev || stat.ino != recorded_ino {
                    return RotationSignal::ResetAndRechunk;
                }
                let sent: u64 = to_unsigned64(last_offset);
                if stat.size <= sent {
                    return RotationSignal::ResetAndRechunk;
                }
                RotationSignal::Append(sent)
            },
        }
    }
}

/// A file that grew in place is continued where it was left, with neither a gap nor a repetition.
pub proof fn law_append_continues(stat: FileStat, last_offset: i64)
    requires
        0 <= last_offset < stat.size,
    ensures
        audited(Some(stat), last_offset, stat.dev, stat.ino) == RotationSignal::Append(
            last_offset as u64,
        ),
{
}

/// A file that was replaced, truncated or overwritten in place, or is gone, is sent from the start.
pub proof fn law_rotation_resets(file: Option<FileStat>, last_offset: i64, dev: u64, ino: u64)
    requires
        last_offset >= 0,
        file matches Some(stat) ==> stat.dev != dev || stat.ino != ino || stat.size <= last_offset,
    ensures
        audited(file, last_offset, dev, ino) == RotationSignal::ResetAndRechunk,
{
}

/// The offset from which a signal sends a file.
pub open spec fn start_of(signal: RotationSignal) -> u64 {
    match signal {
        RotationSignal::Append(offset) => offset,
        RotationSignal::ResetAndRechunk => 0,
    }
}

/// The offset from which a changed file is sent, by its checkpoint.
pub fn file_start(ledger: &LocalLedger, file_path: &str, file: Option<FileStat>) -> (r: u64)
    ensures
        ({
            let (offset, dev, ino) = position_of(ledger@.checkpoints, file_path@);
            r == start_of(audited(file, offset, dev, ino))
        }),
{
    let (offset, dev, ino) = ledger.checkpoint_position(file_path);
    match RotationAuditor::audit_file_change(file, offset, dev, ino) {
        RotationSignal::Append(start) => start,
        RotationSignal::ResetAndRechunk => 0,
    }
}

/// A file that was sent and then grows in place is continued where it was left; one that is
/// replaced, truncated or overwritten in place is sent from the start.
pub proof fn law_sent_file_is_continued(
    v: LedgerView,
    path: Seq<char>,
    before: FileStat,
    offset: u64,
    after: FileStat,
)
    requires
        before.dev <= i64::MAX,
        before.ino <= i64::MAX,
        offset <= i64::MAX,
    ensures
        ({
            let (sent, dev, ino) = position_of(
                committed(v, path, offset, Some(before)).checkpoints,
                path,
            );
            start_of(audited(Some(after), sent, dev, ino)) == if after.dev == before.dev && after.ino
                == before.ino && after.size > offset {
                offset
            } else {
                0
            }
        }),
{
}

/// A command to the running watch.
pub enum WatchCommand {
    AddDir(String),
    RemoveDir(String),
    ListDirs,
}

/// What a command leads to.
pub enum CommandResult {
    /// The system's watch has to change.
    Forward(WatchOp),
    /// The directories that are watched.
    Dirs(Vec<String>),
}

/// When a path was last seen.
pub struct LastSeen {
    pub path: String,
    pub at_ns: u64,
}

impl Record for LastSeen {
    type Key = Seq<char>;

    type Row = u64;

    type Probe = String;

    open spec fn key(&self) -> Seq<char> {
        self.path@
    }

    open spec fn row(&self) -> u64 {
        self.at_ns
    }

    open spec fn probe_key(probe: String) -> Seq<char> {
        probe@
    }

    fn has_key(&self, probe: &String) -> (r: bool) {
        self.path == *probe
    }

    fn probe(&self) -> (r: String) {
        self.path.clone()
    }
}

/// One of the directories is the given one, however it is spelled.
pub open spec fn has_dir(dirs: Seq<Seq<char>>, dir: Seq<char>) -> bool {
    exists|i: int| 0 <= i < dirs.len() && same_path_spec(#[trigger] dirs[i], dir)
}

/// No directory is listed twice, under whatever spelling.
pub open spec fn distinct_dirs(dirs: Seq<Seq<char>>) -> bool {
    forall|i: int, j: int|
        0 <= i < j < dirs.len() ==> !same_path_spec(#[trigger] dirs[i], #[trigger] dirs[j])
}

/// The directories with one more, unless it is among them.
pub open spec fn with_dir(dirs: Seq<Seq<char>>, dir: Seq<char>) -> Seq<Seq<char>> {
    if has_dir(dirs, dir) {
        dirs
    } else {
        dirs.push(dir)
    }
}

/// The directories with more, each unless it is among them.
pub open spec fn with_dirs(dirs: Seq<Seq<char>>, more: Seq<Seq<char>>) -> Seq<Seq<char>>
    decreases more.len(),
{
    if more.len() == 0 {
        dirs
    } else {
        with_dir(with_dirs(dirs, more.drop_last()), more.last())
    }
}

/// The directories without one.
pub open spec fn without_dir(dirs: Seq<Seq<char>>, dir: Seq<char>) -> Seq<Seq<char>>
    decreases dirs.len(),
{
    if dirs.len() == 0 {
        Seq::empty()
    } else {
        let front = without_dir(dirs.drop_last(), dir);
        if same_path_spec(dirs.last(), dir) {
            front
        } else {
            front.push(dirs.last())
        }
    }
}

/// The path lies under one of the directories, as far as the spelling of both goes.
pub open spec fn covers(dirs: Seq<Seq<char>>, path: Seq<char>) -> bool {
    exists|i: int| 0 <= i < dirs.len() && (#[trigger] dirs[i]).is_prefix_of(path)
}

/// The state of the running watch.
pub struct WatchView {
    pub dirs: Seq<Seq<char>>,
    pub seen: Map<Seq<char>, u64>,
}

/// The time from one moment to another, or none if the other is earlier.
pub open spec fn elapsed_ns(then_ns: u64, now_ns: u64) -> int {
    if now_ns >= then_ns {
        now_ns - then_ns
    } else {
        0
    }
}

/// The path was seen less than the debounce time ago.
pub open spec fn is_recent(
    seen: Map<Seq<char>, u64>,
    path: Seq<char>,
    now_ns: u64,
    debounce_ms: u64,
) -> bool {
    seen.contains_key(path) && elapsed_ns(seen[path], now_ns) < debounce_ms * 1_000_000
}

/// An event counts if it names a file that is not excluded, and is a creation or not too soon after
/// the last one of its path.
pub open spec fn counts(
    v: WatchView,
    event: FileChangeEvent,
    is_excluded: bool,
    now_ns: u64,
    debounce_ms: u64,
) -> bool {
    &&& event.file_path@.len() > 0
    &&& !is_excluded
    &&& event.event_kind == FileChangeKind::Created || !is_recent(
        v.seen,
        event.file_path@,
        now_ns,
        debounce_ms,
    )
}

/// The watch after an event: a path that counts, other than by creation, was seen now.
pub open spec fn after_event(
    v: WatchView,
    event: FileChangeEvent,
    is_excluded: bool,
    now_ns: u64,
    debounce_ms: u64,
) -> WatchView {
    if counts(v, event, is_excluded, now_ns, debounce_ms) && event.event_kind
        != FileChangeKind::Created {
        WatchView { seen: v.seen.insert(event.file_path@, now_ns), ..v }
    } else {
        v
    }
}

/// What an event that counts asks for.
#[derive(Clone, Copy, Debug, PartialEq, Eq, Structural)]
pub enum TrackAction {
    /// The segment is gone.
    ForgetSegment(u32),
    /// The segment changed.
    SyncSegment { seq: u32, created: bool },
    /// The file is gone.
    ForgetFile,
    /// The file changed.
    SyncFile,
}

/// What an event that counts asks for.
pub open spec fn action_of(event: FileChangeEvent) -> TrackAction {
    let removed = event.event_kind == FileChangeKind::Removed;
    match segment_seq(event.file_path@) {
        Some(seq) => if removed {
            TrackAction::ForgetSegment(seq)
        } else {
            TrackAction::SyncSegment { seq, created: event.event_kind == FileChangeKind::Created }
        },
        None => if removed {
            TrackAction::ForgetFile
        } else {
            TrackAction::SyncFile
        },
    }
}

/// What an event that counts asks for.
pub fn route_event(event: &FileChangeEvent) -> (r: TrackAction)
    ensures
        r == action_of(*event),
{
    let removed: bool = event.event_kind == FileChangeKind::Removed;
    match parse_segment_seq(&event.file_path) {
        Some(seq) => if removed {
            TrackAction::ForgetSegment(seq)
        } else {
            TrackAction::SyncSegment { seq, created: event.event_kind == FileChangeKind::Created }
        },
        None => if removed {
            TrackAction::ForgetFile
        } else {
            TrackAction::SyncFile
        },
    }
}

/// Watches the files of the configured directories.
pub struct FileTracker {
    watch_cfg: WatchConfig,
    debounce_ms: u64,
}

impl FileTracker {
    /// What is watched, and how.
    pub closed spec fn config(&self) -> WatchConfig {
        self.watch_cfg
    }

    /// The time in which changes of a file are taken together.
    pub closed spec fn debounce(&self) -> u64 {
        self.debounce_ms
    }

    /// A tracker for a configuration.
    pub fn new(watch_cfg: WatchConfig, debounce_ms: u64) -> (r: Self)
        ensures
            r.config() == watch_cfg,
            r.debounce() == debounce_ms,
    {
        FileTracker { watch_cfg, debounce_ms }
    }

    /// Starts to watch the directories of the configuration and those that the ledger has.
    pub fn run(self, ledger: &LocalLedger) -> (r: WatchRun)
        ensures
            r.config() == self.config(),
            r.debounce() == self.debounce(),
            r.wf(),
            r@.seen == Map::<Seq<char>, u64>::empty(),
            exists|added: Seq<Seq<char>>|
                {
                    &&& added.no_duplicates()
                    &&& added.to_set() == ledger@.watched.dom()
                    &&& r@.dirs == #[trigger] with_dirs(
                        with_dirs(Seq::empty(), texts(self.config().dirs@)),
                        added,
                    )
                },
            forall|dir: Seq<char>| #[trigger]
                has_dir(r@.dirs, dir) == (has_dir(texts(self.config().dirs@), dir)
                    || exists|p: Seq<char>| #[trigger]
                    ledger@.watched.contains_key(p) && same_path_spec(p, dir)),
    {
        let mut dirs: Vec<String> = Vec::new();
        assert(texts(dirs@) =~= Seq::<Seq<char>>::empty());
        add_all(&mut dirs, &self.watch_cfg.dirs);
        let added = ledger.watched_dirs();
        add_all(&mut dirs, &added);
        let r = WatchRun {
            watch_cfg: self.watch_cfg,
            debounce_ms: self.debounce_ms,
            dirs,
            last_seen: Vec::new(),
        };
        proof {
            assert(r@.seen =~= Map::<Seq<char>, u64>::empty());
            assert forall|dir: Seq<char>| #[trigger] has_dir(texts(added@), dir) == exists|
                p: Seq<char>,
            | #[trigger] ledger@.watched.contains_key(p) && same_path_spec(p, dir) by {
                if has_dir(texts(added@), dir) {
                    let i = choose|i: int|
                        0 <= i < texts(added@).len() && same_path_spec(
                            #[trigger] texts(added@)[i],
                            dir,
                        );
                    assert(texts(added@).to_set().contains(texts(added@)[i]));
                    assert(ledger@.watched.contains_key(texts(added@)[i]));
                }
                if exists|p: Seq<char>| #[trigger] ledger@.watched.contains_key(p)
                    && same_path_spec(p, dir) {
                    let p = choose|p: Seq<char>| #[trigger] ledger@.watched.contains_key(p)
                        && same_path_spec(p, dir);
                    assert(texts(added@).to_set().contains(p));
                    let i = choose|i: int| 0 <= i < texts(added@).len() && texts(added@)[i] == p;
                    assert(same_path_spec(texts(added@)[i], dir));
                }
            }
        }
        r
    }
}

/// Adds directories to a list that has none twice.
fn add_all(dirs: &mut Vec<String>, more: &Vec<String>)
    requires
        distinct_dirs(texts(old(dirs)@)),
    ensures
        distinct_dirs(texts(final(dirs)@)),
        texts(final(dirs)@) == with_dirs(texts(old(dirs)@), texts(more@)),
        forall|dir: Seq<char>| #[trigger]
            has_dir(texts(final(dirs)@), dir) == (has_dir(texts(old(dirs)@), dir) || has_dir(
                texts(more@),
                dir,
            )),
{
    let n: usize = more.len();
    let mut i: usize = 0;
    let ghost before = texts(dirs@);
    assert(texts(more@).take(0) =~= Seq::<Seq<char>>::empty());
    while i < n
        invariant
            i <= n,
            n == more@.len(),
            distinct_dirs(texts(dirs@)),
            texts(dirs@) == with_dirs(before, texts(more@).take(i as int)),
            forall|dir: Seq<char>| #[trigger]
                has_dir(texts(dirs@), dir) == (has_dir(before, dir) || has_dir(
                    texts(more@).take(i as int),
                    dir,
                )),
        decreases n - i,
    {
        let ghost held = texts(dirs@);
        let ghost seen = texts(more@).take(i as int);
        add_dir(dirs, &more[i]);
        proof {
            assert(texts(more@).take(i + 1) =~= seen.push(more@[i as int]@));
            assert(texts(more@).take(i + 1).drop_last() =~= seen);
            assert forall|dir: Seq<char>| #[trigger] has_dir(texts(dirs@), dir) == (has_dir(
                before,
                dir,
            ) || has_dir(texts(more@).take(i + 1), dir)) by {
                law_dirs_are_a_set(held, more@[i as int]@, dir);
                lemma_has_dir_push(seen, more@[i as int]@, dir);
            }
        }
        i = i + 1;
    }
    assert(texts(more@).take(n as int) =~= texts(more@));
}

/// Whether a directory is in a list, however it is spelled.
fn find_dir(dirs: &Vec<String>, dir: &str) -> (r: bool)
    ensures
        r == has_dir(texts(dirs@), dir@),
{
    let n: usize = dirs.len();
    let mut i: usize = 0;
    while i < n
        invariant
            i <= n,
            n == dirs@.len(),
            forall|j: int| 0 <= j < i ==> !same_path_spec(#[trigger] texts(dirs@)[j], dir@),
        decreases n - i,
    {
        if same_path(&dirs[i], dir) {
            assert(same_path_spec(texts(dirs@)[i as int], dir@));
            return true;
        }
        i = i + 1;
    }
    false
}

/// Adds a directory, unless it is there.
fn add_dir(dirs: &mut Vec<String>, dir: &String)
    requires
        distinct_dirs(texts(old(dirs)@)),
    ensures
        texts(final(dirs)@) == with_dir(texts(old(dirs)@), dir@),
        distinct_dirs(texts(final(dirs)@)),
{
    if !find_dir(dirs, dir) {
        let ghost before = texts(dirs@);
        dirs.push(dir.clone());
        proof {
            let after = texts(dirs@);
            assert(after =~= before.push(dir@));
            assert forall|i: int, j: int| 0 <= i < j < after.len() implies !same_path_spec(
                #[trigger] after[i],
                #[trigger] after[j],
            ) by {
                if j < before.len() {
                    assert(!same_path_spec(before[i], before[j]));
                } else {
                    assert(!same_path_spec(before[i], dir@));
                }
            }
        }
    }
}

proof fn lemma_has_dir_push(dirs: Seq<Seq<char>>, last: Seq<char>, dir: Seq<char>)
    ensures
        has_dir(dirs.push(last), dir) == (has_dir(dirs, dir) || same_path_spec(last, dir)),
{
    let all = dirs.push(last);
    if has_dir(dirs, dir) {
        let i = choose|i: int| 0 <= i < dirs.len() && same_path_spec(#[trigger] dirs[i], dir);
        assert(same_path_spec(all[i], dir));
    }
    if same_path_spec(last, dir) {
        assert(same_path_spec(all[dirs.len() as int], dir));
    }
    if has_dir(all, dir) && !same_path_spec(last, dir) {
        let i = choose|i: int| 0 <= i < all.len() && same_path_spec(#[trigger] all[i], dir);
        assert(same_path_spec(dirs[i], dir));
    }
}

proof fn lemma_without_dir(dirs: Seq<Seq<char>>, dir: Seq<char>, other: Seq<char>)
    ensures
        has_dir(without_dir(dirs, dir), other) == (has_dir(dirs, other) && !same_path_spec(
            dir,
            other,
        )),
    decreases dirs.len(),
{
    if dirs.len() > 0 {
        let front = dirs.drop_last();
        lemma_without_dir(front, dir, other);
        lemma_has_dir_push(front, dirs.last(), other);
        lemma_has_dir_push(without_dir(front, dir), dirs.last(), other);
        assert(front.push(dirs.last()) =~= dirs);
    }
}

/// The watched directories are a set of paths: an added one is there, a removed one is not, and
/// nothing else changes, however the paths are spelled.
pub proof fn law_dirs_are_a_set(dirs: Seq<Seq<char>>, dir: Seq<char>, other: Seq<char>)
    ensures
        has_dir(with_dir(dirs, dir), other) == (has_dir(dirs, other) || same_path_spec(dir, other)),
        has_dir(without_dir(dirs, dir), other) == (has_dir(dirs, other) && !same_path_spec(
            dir,
            other,
        )),
{
    lemma_has_dir_push(dirs, dir, other);
    lemma_without_dir(dirs, dir, other);
    if has_dir(dirs, dir) && same_path_spec(dir, other) {
        let i = choose|i: int| 0 <= i < dirs.len() && same_path_spec(#[trigger] dirs[i], dir);
        assert(same_path_spec(dirs[i], other));
    }
}

/// The running watch.
pub struct WatchRun {
    watch_cfg: WatchConfig,
    debounce_ms: u64,
    dirs: Vec<String>,
    last_seen: Vec<LastSeen>,
}

impl View for WatchRun {
    type V = WatchView;

    closed spec fn view(&self) -> WatchView {
        WatchView { dirs: texts(self.dirs@), seen: table(self.last_seen@) }
    }
}

impl WatchRun {
    /// What is watched at the start, and how.
    pub closed spec fn config(&self) -> WatchConfig {
        self.watch_cfg
    }

    /// The time in which changes of a file are taken together.
    pub closed spec fn debounce(&self) -> u64 {
        self.debounce_ms
    }

    /// The time in which changes of a file are taken together, in milliseconds.
    pub fn debounce_ms(&self) -> (r: u64)
        ensures
            r == self.debounce(),
    {
        self.debounce_ms
    }

    /// No directory is listed twice and no path has two times.
    pub closed spec fn wf(&self) -> bool {
        distinct_dirs(texts(self.dirs@)) && distinct(self.last_seen@)
    }

    /// Whether a path is watched.
    pub fn is_active(&self, path: &str) -> (r: bool)
        ensures
            r == covers(self@.dirs, path@),
    {
        let n: usize = self.dirs.len();
        let mut i: usize = 0;
        while i < n
            invariant
                i <= n,
                n == self.dirs@.len(),
                forall|j: int| 0 <= j < i ==> !(#[trigger] texts(self.dirs@)[j]).is_prefix_of(path@),
            decreases n - i,
        {
            if has_prefix(path, &self.dirs[i]) {
                assert(texts(self.dirs@)[i as int].is_prefix_of(path@));
                return true;
            }
            i = i + 1;
        }
        false
    }

    /// Whether an event counts; if it does, its path has now been seen.
    pub fn take_event(&mut self, event: &FileChangeEvent, now_ns: u64) -> (r: bool)
        requires
            old(self).wf(),
        ensures
            r == counts(
                old(self)@,
                *event,
                excluded(old(self).config().exclude_patterns@, event.file_path@),
                now_ns,
                old(self).debounce(),
            ),
            final(self)@ == after_event(
                old(self)@,
                *event,
                excluded(old(self).config().exclude_patterns@, event.file_path@),
                now_ns,
                old(self).debounce(),
            ),
            final(self).config() == old(self).config(),
            final(self).debounce() == old(self).debounce(),
            final(self).wf(),
    {
        let is_excluded: bool = self.watch_cfg.is_excluded(&event.file_path);
        self.take_event_if(event, is_excluded, now_ns)
    }

    /// Whether an event counts, given whether its path is excluded.
    pub fn take_event_if(&mut self, event: &FileChangeEvent, is_excluded: bool, now_ns: u64) -> (r:
        bool)
        requires
            old(self).wf(),
        ensures
            r == counts(old(self)@, *event, is_excluded, now_ns, old(self).debounce()),
            final(self)@ == after_event(
                old(self)@,
                *event,
                is_excluded,
                now_ns,
                old(self).debounce(),
            ),
            final(self).config() == old(self).config(),
            final(self).debounce() == old(self).debounce(),
            final(self).wf(),
    {
        proof {
            reveal_strlit("");
        }
        if same_text(&event.file_path, "") {
            assert(event.file_path@.len() == 0);
            return false;
        }
        assert(event.file_path@.len() > 0) by {
            if event.file_path@.len() == 0 {
                assert(event.file_path@ =~= ""@);
            }
        }
        if is_excluded {
            return false;
        }
        if event.event_kind == FileChangeKind::Created {
            return true;
        }
        if let Some(i) = find(&self.last_seen, &event.file_path) {
            let at: u64 = self.last_seen[i].at_ns;
            let elapsed: u64 = if now_ns >= at {
                now_ns - at
            } else {
                0
            };
            let window: u128 = self.debounce_ms as u128 * 1_000_000u128;
            if (elapsed as u128) < window {
                return false;
            }
        }
        self.settle(&event.file_path, now_ns);
        true
    }

    /// Notes that a path was seen, or dealt with, now.
    pub fn settle(&mut self, path: &str, now_ns: u64)
        requires
            old(self).wf(),
        ensures
            final(self)@ == (WatchView { seen: old(self)@.seen.insert(path@, now_ns), ..old(self)@ }),
            final(self).config() == old(self).config(),
            final(self).debounce() == old(self).debounce(),
            final(self).wf(),
    {
        put(&mut self.last_seen, LastSeen { path: path.to_string(), at_ns: now_ns });
    }

    /// Carries out a command: the directory set and the ledger change, and the system's watch is
    /// told.
    pub fn command(&mut self, ledger: &mut LocalLedger, cmd: WatchCommand, now: i64) -> (r:
        CommandResult)
        requires
            old(self).wf(),
        ensures
            final(self).wf(),
            final(self).config() == old(self).config(),
            final(self).debounce() == old(self).debounce(),
            final(ledger).base() == old(ledger).base(),
            match cmd {
                WatchCommand::AddDir(dir) => {
                    &&& r == CommandResult::Forward(WatchOp::Add(dir))
                    &&& final(self)@ == (WatchView {
                        dirs: with_dir(old(self)@.dirs, dir@),
                        ..old(self)@
                    })
                    &&& final(ledger)@ == watching(old(ledger)@, dir@, now)
                },
                WatchCommand::RemoveDir(dir) => {
                    &&& r == CommandResult::Forward(WatchOp::Remove(dir))
                    &&& final(self)@ == (WatchView {
                        dirs: without_dir(old(self)@.dirs, dir@),
                        ..old(self)@
                    })
                    &&& final(ledger)@ == unwatching(old(ledger)@, dir@)
                },
                WatchCommand::ListDirs => {
                    &&& r matches CommandResult::Dirs(list)
                    &&& texts(list@) == old(self)@.dirs
                    &&& final(self)@ == old(self)@
                    &&& final(ledger)@ == old(ledger)@
                },
            },
    {
        match cmd {
            WatchCommand::AddDir(dir) => {
                add_dir(&mut self.dirs, &dir);
                ledger.watch_dir(&dir, now);
                CommandResult::Forward(WatchOp::Add(dir))
            },
            WatchCommand::RemoveDir(dir) => {
                let kept = keep_others(&self.dirs, &dir);
                self.dirs = kept;
                ledger.unwatch_dir(&dir);
                CommandResult::Forward(WatchOp::Remove(dir))
            },
            WatchCommand::ListDirs => CommandResult::Dirs(copy_dirs(&self.dirs)),
        }
    }
}

/// The directories without one.
fn keep_others(dirs: &Vec<String>, dir: &str) -> (r: Vec<String>)
    requires
        distinct_dirs(texts(dirs@)),
    ensures
        texts(r@) == without_dir(texts(dirs@), dir@),
        distinct_dirs(texts(r@)),
{
    let n: usize = dirs.len();
    let mut kept: Vec<String> = Vec::new();
    let mut i: usize = 0;
    assert(texts(kept@) =~= Seq::<Seq<char>>::empty());
    while i < n
        invariant
            i <= n,
            n == dirs@.len(),
            distinct_dirs(texts(dirs@)),
            texts(kept@) == without_dir(texts(dirs@).take(i as int), dir@),
            distinct_dirs(texts(kept@)),
        decreases n - i,
    {
        let ghost before = texts(kept@);
        let ghost d = texts(dirs@)[i as int];
        let ghost part = texts(dirs@).take(i as int);
        assert(texts(dirs@).take(i + 1).drop_last() =~= part);
        if !same_path(&dirs[i], dir) {
            kept.push(dirs[i].clone());
            proof {
                let after = texts(kept@);
                assert(after =~= before.push(d));
                assert(!has_dir(part, d)) by {
                    if has_dir(part, d) {
                        let j = choose|j: int|
                            0 <= j < part.len() && same_path_spec(#[trigger] part[j], d);
                        assert(same_path_spec(texts(dirs@)[j], texts(dirs@)[i as int]));
                    }
                }
                lemma_without_dir(part, dir@, d);
                assert forall|a: int, b: int| 0 <= a < b < after.len() implies !same_path_spec(
                    #[trigger] after[a],
                    #[trigger] after[b],
                ) by {
                    if b < before.len() {
                        assert(!same_path_spec(before[a], before[b]));
                    } else if same_path_spec(after[a], after[b]) {
                        assert(same_path_spec(before[a], d));
                        assert(has_dir(before, d));
                    }
                }
            }
        }
        i = i + 1;
    }
    assert(texts(dirs@).take(n as int) =~= texts(dirs@));
    kept
}

/// A copy of a list of directories.
fn copy_dirs(dirs: &Vec<String>) -> (r: Vec<String>)
    ensures
        texts(r@) == texts(dirs@),
{
    let n: usize = dirs.len();
    let mut r: Vec<String> = Vec::new();
    let mut i: usize = 0;
    while i < n
        invariant
            i <= n,
            n == dirs@.len(),
            r@ == dirs@.take(i as int),
        decreases n - i,
    {
        r.push(dirs[i].clone());
        i = i + 1;
        assert(dirs@.take(i as int) =~= dirs@.take(i - 1).push(dirs@[i - 1]));
    }
    assert(dirs@.take(n as int) =~= dirs@);
    r
}

/// Changes of a path within the debounce time of one that counted are taken together with it; a
/// creation always counts, however soon.
pub proof fn law_debounce(
    v: WatchView,
    first: FileChangeEvent,
    second: FileChangeEvent,
    then_ns: u64,
    now_ns: u64,
    debounce_ms: u64,
)
    requires
        counts(v, first, false, then_ns, debounce_ms),
        first.event_kind != FileChangeKind::Created,
        second.file_path@ == first.file_path@,
        then_ns <= now_ns,
    ensures
        counts(
            after_event(v, first, false, then_ns, debounce_ms),
            second,
            false,
            now_ns,
            debounce_ms,
        ) == (second.event_kind == FileChangeKind::Created || now_ns - then_ns >= debounce_ms
            * 1_000_000),
{
}

/// An event of one path has no influence on whether an event of another path counts.
pub proof fn law_paths_are_independent(
    v: WatchView,
    first: FileChangeEvent,
    second: FileChangeEvent,
    first_excluded: bool,
    second_excluded: bool,
    then_ns: u64,
    now_ns: u64,
    debounce_ms: u64,
)
    requires
        second.file_path@ != first.file_path@,
    ensures
        counts(
            after_event(v, first, first_excluded, then_ns, debounce_ms),
            second,
            second_excluded,
            now_ns,
            debounce_ms,
        ) == counts(v, second, second_excluded, now_ns, debounce_ms),
{
}

/// No event of an excluded path counts, whatever its kind and whenever it comes, and it leaves no
/// trace.
pub proof fn law_excluded_never_counts(
    v: WatchView,
    event: FileChangeEvent,
    now_ns: u64,
    debounce_ms: u64,
)
    ensures
        !counts(v, event, true, now_ns, debounce_ms),
        after_event(v, event, true, now_ns, debounce_ms) == v,
{
}

/// An event without a path never counts and leaves no trace.
pub proof fn law_nameless_never_counts(
    v: WatchView,
    event: FileChangeEvent,
    is_excluded: bool,
    now_ns: u64,
    debounce_ms: u64,
)
    requires
        event.file_path@.len() == 0,
    ensures
        !counts(v, event, is_excluded, now_ns, debounce_ms),
        after_event(v, event, is_excluded, now_ns, debounce_ms) == v,
{
}

/// Of a path that is not excluded, a creation always counts and is not noted; another event counts
/// if the path was not seen before, or was last seen at least the debounce time ago, and then the
/// path is noted as seen now. An event that does not count is not noted, nor is any other path.
pub proof fn law_which_events_count(
    v: WatchView,
    event: FileChangeEvent,
    now_ns: u64,
    debounce_ms: u64,
)
    requires
        event.file_path@.len() > 0,
    ensures
        ({
            let path = event.file_path@;
            let taken = counts(v, event, false, now_ns, debounce_ms);
            let after = after_event(v, event, false, now_ns, debounce_ms);
            &&& event.event_kind == FileChangeKind::Created ==> taken && after == v
            &&& event.event_kind != FileChangeKind::Created && !v.seen.contains_key(path) ==> taken
            &&& event.event_kind != FileChangeKind::Created && v.seen.contains_key(path)
                && v.seen[path] <= now_ns ==> (taken <==> now_ns >= v.seen[path] + debounce_ms
                * 1_000_000)
            &&& event.event_kind != FileChangeKind::Created && v.seen.contains_key(path)
                && v.seen[path] > now_ns ==> (taken <==> debounce_ms == 0)
            &&& event.event_kind != FileChangeKind::Created && taken ==> after.seen.contains_key(
                path,
            ) && after.seen[path] == now_ns
            &&& !taken ==> after == v
            &&& after.dirs == v.dirs
            &&& forall|other: Seq<char>|
                #![trigger after.seen.contains_key(other)]
                other != path ==> after.seen.contains_key(other) == v.seen.contains_key(other)
                    && after.seen[other] == v.seen[other]
        }),
{
}

/// A file is continued at an offset exactly if it is still the file that was recorded, by device
/// and inode, and has grown beyond that offset; else it is sent from its first byte. No byte that
/// was not sent before is left out.
pub proof fn law_start_leaves_no_gap(
    file: Option<FileStat>,
    last_offset: i64,
    recorded_dev: u64,
    recorded_ino: u64,
)
    requires
        last_offset >= 0,
    ensures
        ({
            let start = start_of(audited(file, last_offset, recorded_dev, recorded_ino));
            let grown = file is Some && file->0.dev == recorded_dev && file->0.ino == recorded_ino
                && file->0.size > last_offset;
            &&& grown ==> start == last_offset
            &&& !grown ==> start == 0
            &&& audited(file, last_offset, recorded_dev, recorded_ino) is Append <==> grown
        }),
{
}

/// A removed segment is forgotten under its number, another change of it is handled as one of that
/// segment, with whether it is new. A removed file that is no segment is forgotten, another change
/// of it is handled.
pub proof fn law_events_are_routed(event: FileChangeEvent)
    ensures
        segment_seq(event.file_path@) matches Some(seq) ==> match event.event_kind {
            FileChangeKind::Created => action_of(event) == (TrackAction::SyncSegment {
                seq,
                created: true,
            }),
            FileChangeKind::Modified => action_of(event) == (TrackAction::SyncSegment {
                seq,
                created: false,
            }),
            FileChangeKind::Removed => action_of(event) == TrackAction::ForgetSegment(seq),
        },
        segment_seq(event.file_path@) is None ==> match event.event_kind {
            FileChangeKind::Removed => action_of(event) == TrackAction::ForgetFile,
            _ => action_of(event) == TrackAction::SyncFile,
        },
{
}

/// A path is watched if its text begins with that of a watched directory, and not else.
pub proof fn law_watched_paths(dirs: Seq<Seq<char>>, i: int, rest: Seq<char>, path: Seq<char>)
    ensures
        0 <= i < dirs.len() ==> covers(dirs, dirs[i] + rest),
        covers(dirs, path) ==> exists|k: int, more: Seq<char>|
            0 <= k < dirs.len() && path == #[trigger] (dirs[k] + more),
        dirs.len() == 0 ==> !covers(dirs, path),
{
    if 0 <= i < dirs.len() {
        assert(dirs[i].is_prefix_of(dirs[i] + rest)) by {
            assert((dirs[i] + rest).subrange(0, dirs[i].len() as int) =~= dirs[i]);
        }
    }
    if covers(dirs, path) {
        let k = choose|k: int| 0 <= k < dirs.len() && (#[trigger] dirs[k]).is_prefix_of(path);
        let more = path.skip(dirs[k].len() as int);
        assert(path =~= dirs[k] + more);
    }
}

/// Adding directories one after the other keeps those that were there, in their order, and makes
/// each of the added ones a member.
pub proof fn law_added_dirs_are_members(
    dirs: Seq<Seq<char>>,
    more: Seq<Seq<char>>,
    other: Seq<char>,
)
    ensures
        dirs.is_prefix_of(with_dirs(dirs, more)),
        has_dir(with_dirs(dirs, more), other) == (has_dir(dirs, other) || has_dir(more, other)),
    decreases more.len(),
{
    if more.len() > 0 {
        let front = more.drop_last();
        law_added_dirs_are_members(dirs, front, other);
        law_dirs_are_a_set(with_dirs(dirs, front), more.last(), other);
        lemma_has_dir_push(front, more.last(), other);
        assert(front.push(more.last()) =~= more);
        let held = with_dirs(dirs, front);
        assert(dirs =~= with_dirs(dirs, more).subrange(0, dirs.len() as int)) by {
            assert(dirs == held.subrange(0, dirs.len() as int));
        }
    } else {
        assert(dirs =~= dirs.subrange(0, dirs.len() as int));
        assert(!has_dir(more, other));
    }
}

/// A directory that is already there under some spelling is not added again, another one is put
/// last; and exactly the spellings of a removed directory go, while the others keep their order.
pub proof fn law_dirs_are_added_and_removed(
    dirs: Seq<Seq<char>>,
    dir: Seq<char>,
    there: Seq<char>,
)
    ensures
        dirs.contains(there) && same_path_spec(there, dir) ==> with_dir(dirs, dir) == dirs,
        (forall|i: int| 0 <= i < dirs.len() ==> !same_path_spec(#[trigger] dirs[i], dir))
            ==> with_dir(dirs, dir) == dirs.push(dir),
        without_dir(dirs, dir) == dirs.filter(|d: Seq<char>| !same_path_spec(d, dir)),
    decreases dirs.len(),
{
    reveal(Seq::filter);
    if dirs.len() > 0 {
        law_dirs_are_added_and_removed(dirs.drop_last(), dir, there);
    }
    if dirs.contains(there) && same_path_spec(there, dir) {
        let i = choose|i: int| 0 <= i < dirs.len() && dirs[i] == there;
        assert(same_path_spec(dirs[i], dir));
    }
}

} // verus!
