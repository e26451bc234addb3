//! Scanning on macOS: a parallel walk that records device and inode numbers.

use vstd::prelude::*;

use crate::platform::make_item;
use crate::platform::DirEntry;
use crate::platform::PlatformScanner;
use crate::platform::ScanStep;

verus! {

use crate::platform::item_of;
use crate::platform::mtime_of;

/// Scans with device and inode numbers; a file of which the system does not tell them fails the
/// scan.
pub struct MacosScanner;

impl PlatformScanner for MacosScanner {
    open spec fn scanner_name(&self) -> Seq<char> {
        "macos-jwalk"@
    }

    open spec fn scan_of(&self, entry: DirEntry) -> ScanStep {
        if !entry.is_file {
            ScanStep::Skip
        } else {
            match entry.meta {
                None => ScanStep::Fail,
                Some(meta) => ScanStep::Report(item_of(entry.path, meta, meta.dev, meta.ino)),
            }
        }
    }

    fn name(&self) -> (r: &'static str) {
        "macos-jwalk"
    }

    fn fast_scan(&self, entry: &DirEntry) -> (r: ScanStep) {
        if !entry.is_file {
            return ScanStep::Skip;
        }
        match &entry.meta {
            None => ScanStep::Fail,
            Some(meta) => ScanStep::Report(make_item(&entry.path, meta, meta.dev, meta.ino)),
        }
    }
}

/// What is no file is passed over; a file is reported with its own device and inode, and one that
/// the system tells nothing of ends the scan.
pub proof fn law_scan_reports_files(scanner: MacosScanner, entry: DirEntry)
    ensures
        !entry.is_file ==> scanner.scan_of(entry) is Skip,
        entry.is_file && entry.meta is None ==> scanner.scan_of(entry) is Fail,
        entry.is_file ==> (entry.meta matches Some(meta) ==> (scanner.scan_of(entry) matches
            ScanStep::Report(item) && item.file_path == entry.path && item.st_dev == meta.dev
            && item.st_ino == meta.ino && item.mtime_ns == mtime_of(
            meta,
        ) && (meta.len <= i64::MAX ==> item.file_size == meta.len))),
{
}

} // verus!
