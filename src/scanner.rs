//! The scanning entry points: a tree and report from the entries of a
//! directory walk, optionally publishing live progress as they go.
use vstd::prelude::*;
use crate::tree::Node;
use crate::scan::{WalkEntry, ScanBuilder, ScanReport, ScanError, ScanProgress, root_failure,
    tree_of, report_of};
use crate::progress::SharedProgress;

verus! {

/// `r` is what a scan of the entries `es` below a root called `name` gives:
/// the failure to open the root if the walk met one, else the finished tree
/// and its report.
pub open spec fn scan_outcome(
    name: Seq<char>,
    es: Seq<WalkEntry>,
    r: Result<(Node, ScanReport), ScanError>,
) -> bool {
    match root_failure(es) {
        Some(m) => r matches Err(ScanError::RootUnreadable(e)) && e == m,
        None => r matches Ok((root, report)) && tree_of(root, name, es) && report_of(report, es),
    }
}

/// Builds the tree and report for the walked `entries` below a root called
/// `root_name`, publishing progress after each entry when `shared` is given.
pub fn scan_directory_with_report_shared(
    root_name: String,
    entries: &Vec<WalkEntry>,
    shared: Option<&SharedProgress>,
) -> (r: Result<(Node, ScanReport), ScanError>)
    ensures
        scan_outcome(root_name@, entries@, r),
{
    let ghost name = root_name@;
    let mut b = ScanBuilder::new(root_name);
    let mut i: usize = 0;
    while i < entries.len()
        invariant
            i <= entries@.len(),
            b.wf(),
            b.root_name() == name,
            b.entries() == entries@.subrange(0, i as int),
        decreases entries@.len() - i,
    {
        let p = b.record(&entries[i]);
        match shared {
            Some(s) => s.publish(&p),
            None => {},
        }
        i = i + 1;
        assert(b.entries() =~= entries@.subrange(0, i as int));
    }
    assert(entries@.subrange(0, i as int) =~= entries@);
    b.finish()
}

/// Builds the tree and report for the walked `entries` below a root called
/// `root_name`.
pub fn scan_directory_with_report(root_name: String, entries: &Vec<WalkEntry>) -> (r: Result<
    (Node, ScanReport),
    ScanError,
>)
    ensures
        scan_outcome(root_name@, entries@, r),
{
    scan_directory_with_report_shared(root_name, entries, None)
}

/// Builds the tree for the walked `entries` below a root called `root_name`.
pub fn scan_directory(root_name: String, entries: &Vec<WalkEntry>) -> (r: Result<Node, ScanError>)
    ensures
        match root_failure(entries@) {
            Some(m) => r matches Err(ScanError::RootUnreadable(e)) && e == m,
            None => r matches Ok(root) && tree_of(root, root_name@, entries@),
        },
{
    match scan_directory_with_report(root_name, entries) {
        Ok((root, _report)) => Ok(root),
        Err(e) => Err(e),
    }
}

/// What a frontend sees of one scan: idle, then scanning, then done or
/// failed for good.
#[derive(Debug)]
pub enum ScanState {
    Idle,
    Scanning { files_scanned: u64, current_path: Option<String> },
    Done { root: Node, report: ScanReport },
    Error(String),
}

impl Default for ScanState {
    fn default() -> (r: ScanState)
        ensures
            r is Idle,
    {
        ScanState::Idle
    }
}

impl ScanState {
    /// The state while a scan runs, from its latest progress.
    pub fn scanning(p: ScanProgress) -> (r: ScanState)
        ensures
            r == (ScanState::Scanning { files_scanned: p.files_scanned, current_path: p.current_path }),
    {
        ScanState::Scanning { files_scanned: p.files_scanned, current_path: p.current_path }
    }

    /// The final state of a scan from its outcome.
    pub fn finished(r: Result<(Node, ScanReport), ScanError>) -> (s: ScanState)
        ensures
            match r {
                Ok((root, report)) => s == (ScanState::Done { root, report }),
                Err(ScanError::RootUnreadable(m)) => s == ScanState::Error(m),
            },
    {
        match r {
            Ok((root, report)) => ScanState::Done { root, report },
            Err(ScanError::RootUnreadable(m)) => ScanState::Error(m),
        }
    }

    /// Done and failed are final.
    pub fn is_terminal(&self) -> (r: bool)
        ensures
            r == (self is Done || self is Error),
    {
        match self {
            ScanState::Done { .. } | ScanState::Error(_) => true,
            _ => false,
        }
    }
}

/// The scanning interface for frontends.
#[derive(Debug)]
pub struct Scanner {}

impl Scanner {
    pub fn new() -> (r: Scanner) {
        Scanner {  }
    }

    /// The finished tree for the walked `entries` below a root called
    /// `root_name`.
    pub fn scan(&self, root_name: String, entries: &Vec<WalkEntry>) -> (r: Result<Node, ScanError>)
        ensures
            match root_failure(entries@) {
                Some(m) => r matches Err(ScanError::RootUnreadable(e)) && e == m,
                None => r matches Ok(root) && tree_of(root, root_name@, entries@),
            },
    {
        scan_directory(root_name, entries)
    }

    /// The finished tree and report, publishing progress to `progress`
    /// after each entry.
    pub fn scan_with_progress(
        &self,
        root_name: String,
        entries: &Vec<WalkEntry>,
        progress: &SharedProgress,
    ) -> (r: Result<(Node, ScanReport), ScanError>)
        ensures
            scan_outcome(root_name@, entries@, r),
    {
        scan_directory_with_report_shared(root_name, entries, Some(progress))
    }
}

} // verus!
