use vstd::prelude::*;
use crate::scanner::ScanResult;

verus! {

/// Where the reference databases live.
pub struct AppDb {
    pub db_path: String,
}

/// A point-in-time snapshot of the application's statistics, handed
/// read-only to the presentation layer: where the databases live, the
/// byte total found under that directory, the matching entries found
/// there, where the logs live, and any soft failures the caller chose
/// to record alongside.
pub struct StatisticsState {
    pub db_path: String,
    pub db_path_size: u64,
    pub db_list: Vec<String>,
    pub log_path: String,
    pub errors: Vec<String>,
}

impl StatisticsState {
    /// The snapshot before any scan has completed: empty paths, a zero
    /// total, and nothing listed.
    pub fn empty() -> (r: Self)
        ensures
            r.db_path@.len() == 0,
            r.db_path_size == 0,
            r.db_list@.len() == 0,
            r.log_path@.len() == 0,
            r.errors@.len() == 0,
    {
        StatisticsState {
            db_path: String::new(),
            db_path_size: 0,
            db_list: Vec::new(),
            log_path: String::new(),
            errors: Vec::new(),
        }
    }

    /// The snapshot for a finished scan of `db_path`: the scan's total
    /// and match list taken over unchanged, the given log directory, and
    /// no recorded failures.
    pub fn from_scan(db_path: String, log_path: String, scan: ScanResult) -> (r: Self)
        ensures
            r.db_path@ == db_path@,
            r.db_path_size == scan.total_size_bytes,
            r.db_list == scan.matched_entries,
            r.log_path@ == log_path@,
            r.errors@.len() == 0,
    {
        StatisticsState {
            db_path,
            db_path_size: scan.total_size_bytes,
            db_list: scan.matched_entries,
            log_path,
            errors: Vec::new(),
        }
    }
}

} // verus!
