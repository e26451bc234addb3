//! What differs from one operating system to the next: scanning and watching.

pub mod linux;
pub mod linux_tracker;
pub mod macos;
pub mod notify_tracker;
pub mod tracker;
pub mod windows;

use vstd::prelude::*;

use crate::numbers::to_low64;
use crate::numbers::to_signed64;
use crate::scanner::ScanItem;

verus! {

use crate::numbers::low64;
use crate::numbers::signed64;

/// What the system says of a file.
#[derive(Clone, Copy, Debug, PartialEq, Eq, Structural)]
pub struct FileMeta {
    /// Nanoseconds from the epoch to the last change, if it can be told and is not before.
    pub modified_ns: Option<u128>,
    pub len: u64,
    pub dev: u64,
    pub ino: u64,
}

/// What a walk through a directory comes across.
pub struct DirEntry {
    pub path: String,
    pub is_file: bool,
    /// None where the system does not say.
    pub meta: Option<FileMeta>,
}

/// What a scan makes of an entry.
pub enum ScanStep {
    /// Nothing to report.
    Skip,
    /// A file to report.
    Report(ScanItem),
    /// The scan fails.
    Fail,
}

/// The time of the last change of a file in nanoseconds, or zero.
pub open spec fn mtime_of(meta: FileMeta) -> i64 {
    match meta.modified_ns {
        Some(ns) => signed64(low64(ns)),
        None => 0,
    }
}

/// The time of the last change of a file in nanoseconds, or zero.
pub fn mtime_ns(meta: &FileMeta) -> (r: i64)
    ensures
        r == mtime_of(*meta),
{
    match meta.modified_ns {
        Some(ns) => to_signed64(to_low64(ns)),
        None => 0,
    }
}

/// How a system is scanned.
pub trait PlatformScanner {
    /// The name of the scanner.
    spec fn scanner_name(&self) -> Seq<char>;

    /// What the scan makes of an entry.
    spec fn scan_of(&self, entry: DirEntry) -> ScanStep;

    /// The name of the scanner.
    fn name(&self) -> (r: &'static str)
        ensures
            r@ == self.scanner_name(),
    ;

    /// What the scan makes of an entry.
    fn fast_scan(&self, entry: &DirEntry) -> (r: ScanStep)
        ensures
            r == self.scan_of(*entry),
    ;
}

/// The item that a scan reports of a file, with the device and inode to record.
pub open spec fn item_of(path: String, meta: FileMeta, dev: u64, ino: u64) -> ScanItem {
    ScanItem {
        file_path: path,
        mtime_ns: mtime_of(meta),
        file_size: signed64(meta.len),
        st_dev: dev,
        st_ino: ino,
    }
}

/// The item that a scan reports of a file, with the device and inode to record.
pub fn make_item(path: &String, meta: &FileMeta, dev: u64, ino: u64) -> (r: ScanItem)
    ensures
        r == item_of(*path, *meta, dev, ino),
{
    ScanItem {
        file_path: path.clone(),
        mtime_ns: mtime_ns(meta),
        file_size: to_signed64(meta.len),
        st_dev: dev,
        st_ino: ino,
    }
}

/// A reported file has the path, size and time that the system gave, and the numbers that were given
/// to record; the time of a change that cannot be told is zero.
pub proof fn law_reported_file(path: String, meta: FileMeta, dev: u64, ino: u64)
    requires
        meta.len <= i64::MAX,
    ensures
        ({
            let item = item_of(path, meta, dev, ino);
            &&& item.file_path == path
            &&& item.file_size == meta.len
            &&& item.st_dev == dev
            &&& item.st_ino == ino
            &&& meta.modified_ns is None ==> item.mtime_ns == 0
            &&& meta.modified_ns matches Some(ns) ==> ns <= i64::MAX ==> item.mtime_ns == ns
        }),
{
}

} // verus!
