//! Disk usage analysis: a scanned directory tree with sizes aggregated
//! bottom-up, a report of what could not be read, live progress for polling
//! frontends, and deletion that keeps the tree and a browsing cursor
//! consistent.
use vstd::prelude::*;

pub mod tree;
pub mod insert;
pub mod aggregate;
pub mod delete;
pub mod scan;
pub mod progress;
pub mod scanner;
pub mod cursor;
pub mod laws;

pub use tree::Node;
pub use insert::{ensure_dir_path, add_file_to_tree};
pub use aggregate::{calculate_dir_sizes, sort_tree};
pub use delete::DeleteError;
pub use scan::{WalkEntry, SkippedEntry, ScanReport, ScanProgress, ScanError, ScanBuilder};
pub use progress::SharedProgress;
pub use scanner::{scan_directory, scan_directory_with_report, scan_directory_with_report_shared,
    ScanState, Scanner};
pub use cursor::NavigationState;

verus! {

} // verus!
