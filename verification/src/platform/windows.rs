//! Scanning on Windows: a parallel walk without device and inode numbers.

use vstd::prelude::*;

use crate::platform::make_item;
use crate::platform::DirEntry;
use crate::platform::PlatformScanner;
use crate::platform::ScanStep;

verus! {

use crate::platform::item_of;
use crate::platform::mtime_of;

/// Scans without device and inode numbers; a file of which the system tells nothing is left out.
pub struct WindowsScanner;

impl PlatformScanner for WindowsScanner {
    open spec fn scanner_name(&self) -> Seq<char> {
        "windows-jwalk"@
    }

    open spec fn scan_of(&self, entry: DirEntry) -> ScanStep {
        match entry.meta {
            Some(meta) if entry.is_file => ScanStep::Report(item_of(entry.path, meta, 0, 0)),
            _ => ScanStep::Skip,
        }
    }

    fn name(&self) -> (r: &'static str) {
        "windows-jwalk"
    }

    fn fast_scan(&self, entry: &DirEntry) -> (r: ScanStep) {
        if !entry.is_file {
            return ScanStep::Skip;
        }
        match &entry.meta {
            None => ScanStep::Skip,
            Some(meta) => ScanStep::Report(make_item(&entry.path, meta, 0, 0)),
        }
    }
}

/// What is no file, or is one that the system tells nothing of, is passed over; a file is reported
/// without device and inode.
pub proof fn law_scan_reports_files(scanner: WindowsScanner, entry: DirEntry)
    ensures
        !entry.is_file || entry.meta is None ==> scanner.scan_of(entry) is Skip,
        entry.is_file ==> (entry.meta matches Some(meta) ==> (scanner.scan_of(entry) matches
            ScanStep::Report(item) && item.file_path == entry.path && item.st_dev == 0
            && item.st_ino == 0 && item.mtime_ns == mtime_of(
            meta,
        ) && (meta.len <= i64::MAX ==> item.file_size == meta.len))),
{
}

} // verus!
