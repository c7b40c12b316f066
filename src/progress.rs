//! Live progress of a running scan, shared between the scanning thread and
//! any number of polling readers.
use vstd::prelude::*;
use std::sync::Mutex;
use std::sync::atomic::{AtomicU64, Ordering};
use crate::scan::ScanProgress;

verus! {

#[verifier::external_type_specification]
#[verifier::external_body]
#[verifier::reject_recursive_types(T)]
pub struct ExMutex<T: ?Sized>(Mutex<T>);

pub assume_specification<T>[ Mutex::<T>::new ](t: T) -> Mutex<T>;

/// Relies on std's `Mutex::lock`: stores the path under the lock; a
/// poisoned lock is passed over, since readers only need some recent path.
#[verifier::external_body]
fn store_path(m: &Mutex<Option<String>>, path: String) {
    if let Ok(mut held) = m.lock() {
        *held = Some(path);
    }
}

/// Relies on std's `Mutex::lock`: a copy of the path held under the lock
/// (none when the lock is poisoned).
#[verifier::external_body]
fn load_path(m: &Mutex<Option<String>>) -> Option<String> {
    match m.lock() {
        Ok(held) => held.clone(),
        Err(_) => None,
    }
}

/// Counters that the scanning thread writes without waiting for readers:
/// the number of files seen (read with relaxed ordering) and the last path
/// touched (under a lock).
pub struct SharedProgress {
    pub files_scanned: AtomicU64,
    pub last_path: Mutex<Option<String>>,
}

impl SharedProgress {
    /// Fresh counters: no file seen, no path yet.
    pub fn new() -> (r: SharedProgress) {
        SharedProgress { files_scanned: AtomicU64::new(0), last_path: Mutex::new(None) }
    }

    /// Makes a snapshot visible to readers.
    pub fn publish(&self, p: &ScanProgress) {
        self.files_scanned.store(p.files_scanned, Ordering::Relaxed);
        match &p.current_path {
            Some(s) => store_path(&self.last_path, s.clone()),
            None => {},
        }
    }

    /// A recent, possibly stale, snapshot.
    pub fn snapshot(&self) -> (r: ScanProgress) {
        ScanProgress {
            files_scanned: self.files_scanned.load(Ordering::Relaxed),
            current_path: load_path(&self.last_path),
        }
    }
}

} // verus!
