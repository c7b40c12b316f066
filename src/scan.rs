//! Turning the entries of a directory walk into a finished tree and a report
//! of what could not be read.
use vstd::prelude::*;
use crate::tree::{Node, comps, lookup, wf, is_prefix, shape_kept, summary};
use crate::insert::{inserted, size_after, dir_sized, ensure_dir_path, add_file_to_tree};
use crate::aggregate::{aggregated, sorted_tree, calculate_dir_sizes, sort_tree};

verus! {

/// One item of a directory walk below the scan root, as the walker saw it.
/// Paths are components relative to the root; `shown` is the entry's path as
/// the walker printed it, for progress display.
#[derive(Debug)]
pub enum WalkEntry {
    /// A directory.
    Dir { path: Vec<String>, shown: String },
    /// A file, with its length in bytes.
    File { path: Vec<String>, shown: String, size: u64 },
    /// An entry that could not be read; `denied` tells a permission failure
    /// from any other, and `path` is absent where the walker could not
    /// resolve one.
    Unreadable { path: Option<String>, message: String, denied: bool },
    /// The root itself could not be opened.
    RootUnreadable { message: String },
}

/// An entry left out of the tree because it could not be read.
#[derive(Debug)]
pub struct SkippedEntry {
    pub path: Option<String>,
    pub message: String,
}

/// What a scan could not read: permission failures in `skipped`, every other
/// failure in `errors`, each in the order met.
#[derive(Debug)]
pub struct ScanReport {
    pub skipped: Vec<SkippedEntry>,
    pub errors: Vec<SkippedEntry>,
}

/// A snapshot of a running scan: files counted so far and the last path seen.
#[derive(Debug)]
pub struct ScanProgress {
    pub files_scanned: u64,
    pub current_path: Option<String>,
}

/// Why a scan produced no tree.
#[derive(Debug)]
pub enum ScanError {
    /// The root could not be opened; the walker's message.
    RootUnreadable(String),
}

/// The path an entry puts into the tree, for directories and files.
pub open spec fn entry_target(e: WalkEntry) -> Option<Seq<Seq<char>>> {
    match e {
        WalkEntry::Dir { path, .. } => Some(comps(path@)),
        WalkEntry::File { path, .. } => Some(comps(path@)),
        _ => None,
    }
}

/// A file entry's length.
pub open spec fn file_len(e: WalkEntry) -> Option<u64> {
    match e {
        WalkEntry::File { size, .. } => Some(size),
        _ => None,
    }
}

/// Entry `e` puts the non-empty path `p` into the tree, as its own path or
/// as a directory on the way to it.
pub open spec fn touches(e: WalkEntry, p: Seq<Seq<char>>) -> bool {
    p.len() > 0 && match entry_target(e) {
        Some(c) => is_prefix(p, c),
        None => false,
    }
}

/// Some entry of `es` puts `p` into the tree.
pub open spec fn present(es: Seq<WalkEntry>, p: Seq<Seq<char>>) -> bool {
    exists|i: int| 0 <= i < es.len() && #[trigger] touches(es[i], p)
}

/// The last entry of `es` that touches `p` leaves it a directory: every one
/// does but a file entry for `p` itself.
pub open spec fn ends_as_dir(es: Seq<WalkEntry>, p: Seq<Seq<char>>) -> bool
    decreases es.len(),
{
    if es.len() == 0 {
        false
    } else if touches(es.last(), p) {
        !(file_len(es.last()) is Some && entry_target(es.last()) == Some(p))
    } else {
        ends_as_dir(es.drop_last(), p)
    }
}

/// The lengths of the file entries for `p`, added up (saturating).
pub open spec fn bytes_at(es: Seq<WalkEntry>, p: Seq<Seq<char>>) -> u64
    decreases es.len(),
{
    if es.len() == 0 {
        0
    } else {
        let b = bytes_at(es.drop_last(), p);
        if entry_target(es.last()) == Some(p) && file_len(es.last()) is Some {
            b.saturating_add(file_len(es.last())->0)
        } else {
            b
        }
    }
}

/// Before aggregation: what `p` leads to is there exactly when an entry put
/// it there, of the kind the last such entry left, holding the file bytes
/// met for it.
pub open spec fn built_at(o: Option<Node>, es: Seq<WalkEntry>, p: Seq<Seq<char>>) -> bool {
    match o {
        Some(m) => present(es, p) && m.is_dir == ends_as_dir(es, p) && m.size == bytes_at(es, p),
        None => !present(es, p),
    }
}

/// After aggregation: as `built_at`, with sizes pinned for files only.
pub open spec fn agrees_at(o: Option<Node>, es: Seq<WalkEntry>, p: Seq<Seq<char>>) -> bool {
    match o {
        Some(m) => present(es, p) && m.is_dir == ends_as_dir(es, p) && (!m.is_dir ==> m.size
            == bytes_at(es, p)),
        None => !present(es, p),
    }
}

/// Every path below `n` is as the entries `es` built it.
pub open spec fn built_from(n: Node, es: Seq<WalkEntry>) -> bool {
    forall|p: Seq<Seq<char>>| p.len() > 0 ==> built_at(#[trigger] lookup(n, p), es, p)
}

/// The tree below `n` holds exactly what the entries `es` describe.
pub open spec fn describes(n: Node, es: Seq<WalkEntry>) -> bool {
    forall|p: Seq<Seq<char>>| p.len() > 0 ==> agrees_at(#[trigger] lookup(n, p), es, p)
}

/// The unreadable entries of `es` of one class (permission failures when
/// `denied`), in order.
pub open spec fn skipped_of(es: Seq<WalkEntry>, denied: bool) -> Seq<SkippedEntry>
    decreases es.len(),
{
    if es.len() == 0 {
        Seq::empty()
    } else {
        let rest = skipped_of(es.drop_last(), denied);
        match es.last() {
            WalkEntry::Unreadable { path, message, denied: d } => if d == denied {
                rest.push(SkippedEntry { path, message })
            } else {
                rest
            },
            _ => rest,
        }
    }
}

/// The number of file entries in `es`.
pub open spec fn file_count(es: Seq<WalkEntry>) -> nat
    decreases es.len(),
{
    if es.len() == 0 {
        0
    } else {
        file_count(es.drop_last()) + if file_len(es.last()) is Some {
            1nat
        } else {
            0nat
        }
    }
}

/// The file count as a `u64` holds it (saturating).
pub open spec fn count_u64(n: nat) -> u64 {
    if n > u64::MAX {
        u64::MAX
    } else {
        n as u64
    }
}

/// The last path shown by an entry of `es`.
pub open spec fn last_shown(es: Seq<WalkEntry>) -> Option<String>
    decreases es.len(),
{
    if es.len() == 0 {
        None
    } else {
        match es.last() {
            WalkEntry::Dir { shown, .. } => Some(shown),
            WalkEntry::File { shown, .. } => Some(shown),
            WalkEntry::Unreadable { path: Some(s), .. } => Some(s),
            _ => last_shown(es.drop_last()),
        }
    }
}

/// The message of the last failure to open the root, if any.
pub open spec fn root_failure(es: Seq<WalkEntry>) -> Option<String>
    decreases es.len(),
{
    if es.len() == 0 {
        None
    } else {
        match es.last() {
            WalkEntry::RootUnreadable { message } => Some(message),
            _ => root_failure(es.drop_last()),
        }
    }
}

/// A finished tree for the entries `es` below a root called `name`: well
/// formed, aggregated, sorted, and holding exactly what the entries describe.
pub open spec fn tree_of(root: Node, name: Seq<char>, es: Seq<WalkEntry>) -> bool {
    &&& root.name@ == name
    &&& root.is_dir
    &&& root.path@.len() == 0
    &&& wf(root)
    &&& aggregated(root)
    &&& sorted_tree(root)
    &&& describes(root, es)
}

/// The report for the entries `es`.
pub open spec fn report_of(report: ScanReport, es: Seq<WalkEntry>) -> bool {
    &&& report.skipped@ == skipped_of(es, true)
    &&& report.errors@ == skipped_of(es, false)
}

/// A path no entry put into the tree holds no file bytes.
proof fn lemma_absent_no_bytes(es: Seq<WalkEntry>, p: Seq<Seq<char>>)
    requires
        p.len() > 0,
        !present(es, p),
    ensures
        bytes_at(es, p) == 0,
    decreases es.len(),
{
    if es.len() > 0 {
        let es0 = es.drop_last();
        assert(!present(es0, p)) by {
            if present(es0, p) {
                let i = choose|i: int| 0 <= i < es0.len() && #[trigger] touches(es0[i], p);
                assert(es[i] == es0[i]);
            }
        }
        lemma_absent_no_bytes(es0, p);
        if entry_target(es.last()) == Some(p) {
            assert(p.subrange(0, p.len() as int) =~= p);
            assert(touches(es[es.len() - 1], p));
        }
    }
}

/// One more entry: it is present where it was or where the new one puts it.
proof fn lemma_present_push(es: Seq<WalkEntry>, e: WalkEntry, p: Seq<Seq<char>>)
    ensures
        present(es.push(e), p) == (present(es, p) || touches(e, p)),
{
    let es2 = es.push(e);
    if present(es, p) {
        let i = choose|i: int| 0 <= i < es.len() && #[trigger] touches(es[i], p);
        assert(es2[i] == es[i]);
    }
    if touches(e, p) {
        assert(es2[es.len() as int] == e);
    }
    if present(es2, p) {
        let i = choose|i: int| 0 <= i < es2.len() && #[trigger] touches(es2[i], p);
        if i < es.len() {
            assert(es2[i] == es[i]);
        }
    }
}

/// An entry that puts nothing into the tree keeps it as the entries built it.
proof fn lemma_built_untouched(n: Node, es: Seq<WalkEntry>, e: WalkEntry)
    requires
        built_from(n, es),
        entry_target(e) matches Some(c) ==> c.len() == 0,
    ensures
        built_from(n, es.push(e)),
{
    let es2 = es.push(e);
    assert(es2.drop_last() == es);
    assert forall|p: Seq<Seq<char>>| p.len() > 0 implies built_at(#[trigger] lookup(n, p), es2, p) by {
        lemma_present_push(es, e, p);
        assert(built_at(lookup(n, p), es, p));
    }
}

/// An entry inserted into the tree keeps it as the entries built it.
proof fn lemma_built_inserted(before: Node, after: Node, es: Seq<WalkEntry>, e: WalkEntry)
    requires
        built_from(before, es),
        entry_target(e) matches Some(c) && c.len() > 0 && inserted(before, after, c, file_len(e)),
    ensures
        built_from(after, es.push(e)),
{
    let es2 = es.push(e);
    let r = entry_target(e)->0;
    let fs = file_len(e);
    assert(es2.drop_last() == es);
    assert(es2.last() == e);
    assert forall|p: Seq<Seq<char>>| p.len() > 0 implies built_at(#[trigger] lookup(after, p), es2, p) by {
        lemma_present_push(es, e, p);
        assert(built_at(lookup(before, p), es, p));
        if !is_prefix(p, r) {
            assert(lookup(after, p) == lookup(before, p));
            assert(p != r) by {
                if p == r {
                    assert(r.subrange(0, r.len() as int) =~= r);
                }
            }
        } else if p.len() < r.len() {
            let k = p.len() as int;
            assert(r.subrange(0, k) == p);
            assert(dir_sized(lookup(after, p), size_after(lookup(before, p), None)));
            assert(touches(e, p));
            if !present(es, p) {
                lemma_absent_no_bytes(es, p);
            }
        } else {
            assert(p =~= r);
            assert(touches(e, p));
            if !present(es, p) {
                lemma_absent_no_bytes(es, p);
            }
        }
    }
}

/// A copy of an optional string.
fn copy_opt(o: &Option<String>) -> (r: Option<String>)
    ensures
        r == *o,
{
    match o {
        Some(s) => Some(s.clone()),
        None => None,
    }
}

/// Builds a tree from walked entries, one at a time, as they arrive.
pub struct ScanBuilder {
    root: Node,
    report: ScanReport,
    files_scanned: u64,
    last_path: Option<String>,
    root_error: Option<String>,
    seen: Ghost<Seq<WalkEntry>>,
}

impl ScanBuilder {
    /// The entries recorded so far.
    pub closed spec fn entries(&self) -> Seq<WalkEntry> {
        self.seen@
    }

    /// The name given to the root.
    pub closed spec fn root_name(&self) -> Seq<char> {
        self.root.name@
    }

    /// The number of files recorded so far (saturating).
    pub closed spec fn files_scanned(&self) -> u64 {
        self.files_scanned
    }

    /// The builder's state is what its entries make of it.
    pub closed spec fn wf(&self) -> bool {
        &&& wf(self.root)
        &&& self.root.is_dir
        &&& self.root.path@.len() == 0
        &&& built_from(self.root, self.seen@)
        &&& report_of(self.report, self.seen@)
        &&& self.files_scanned == count_u64(file_count(self.seen@))
        &&& self.last_path == last_shown(self.seen@)
        &&& self.root_error == root_failure(self.seen@)
    }

    /// A builder for a root called `root_name`, with nothing recorded.
    pub fn new(root_name: String) -> (b: ScanBuilder)
        ensures
            b.wf(),
            b.entries() == Seq::<WalkEntry>::empty(),
            b.root_name() == root_name@,
            b.files_scanned() == 0,
    {
        let b = ScanBuilder {
            root: Node::new(root_name, Vec::new(), true),
            report: ScanReport { skipped: Vec::new(), errors: Vec::new() },
            files_scanned: 0,
            last_path: None,
            root_error: None,
            seen: Ghost(Seq::empty()),
        };
        proof {
            assert forall|p: Seq<Seq<char>>| p.len() > 0 implies built_at(
                #[trigger] lookup(b.root, p),
                b.seen@,
                p,
            ) by {
                crate::tree::lemma_lookup_missing(b.root, p);
            }
            assert(b.report.skipped@ =~= skipped_of(b.seen@, true));
            assert(b.report.errors@ =~= skipped_of(b.seen@, false));
        }
        b
    }

    /// Records one entry: a directory or file goes into the tree, a failure
    /// into the report. Returns the progress after it; the file count never
    /// goes down.
    pub fn record(&mut self, entry: &WalkEntry) -> (p: ScanProgress)
        requires
            old(self).wf(),
        ensures
            final(self).wf(),
            final(self).entries() == old(self).entries().push(*entry),
            final(self).root_name() == old(self).root_name(),
            final(self).files_scanned() >= old(self).files_scanned(),
            p.files_scanned == final(self).files_scanned(),
            p.current_path == last_shown(final(self).entries()),
    {
        let ghost es = self.seen@;
        let ghost before = self.root;
        let ghost es2 = es.push(*entry);
        assert(es2.drop_last() == es);
        assert(es2.last() == *entry);
        match entry {
            WalkEntry::Dir { path, shown } => {
                self.last_path = Some(shown.clone());
                ensure_dir_path(&mut self.root, path);
                proof {
                    if path@.len() == 0 {
                        assert(comps(path@).len() == 0);
                        lemma_built_untouched(before, es, *entry);
                    } else {
                        lemma_built_inserted(before, self.root, es, *entry);
                    }
                }
            },
            WalkEntry::File { path, shown, size } => {
                self.last_path = Some(shown.clone());
                self.files_scanned = self.files_scanned.saturating_add(1);
                add_file_to_tree(&mut self.root, path, *size);
                proof {
                    if path@.len() == 0 {
                        assert(comps(path@).len() == 0);
                        lemma_built_untouched(before, es, *entry);
                    } else {
                        lemma_built_inserted(before, self.root, es, *entry);
                    }
                }
            },
            WalkEntry::Unreadable { path, message, denied } => {
                if path.is_some() {
                    self.last_path = copy_opt(path);
                }
                let skipped = SkippedEntry { path: copy_opt(path), message: message.clone() };
                if *denied {
                    self.report.skipped.push(skipped);
                } else {
                    self.report.errors.push(skipped);
                }
                proof {
                    lemma_built_untouched(before, es, *entry);
                }
            },
            WalkEntry::RootUnreadable { message } => {
                self.root_error = Some(message.clone());
                proof {
                    lemma_built_untouched(before, es, *entry);
                }
            },
        }
        self.seen = Ghost(es2);
        ScanProgress { files_scanned: self.files_scanned, current_path: copy_opt(&self.last_path) }
    }

    /// The finished tree and report, sizes aggregated and children sorted,
    /// or the failure to open the root.
    pub fn finish(self) -> (r: Result<(Node, ScanReport), ScanError>)
        requires
            self.wf(),
        ensures
            match root_failure(self.entries()) {
                Some(m) => r matches Err(ScanError::RootUnreadable(e)) && e == m,
                None => r matches Ok((root, report)) && tree_of(root, self.root_name(), self.entries())
                    && report_of(report, self.entries()),
            },
    {
        let ScanBuilder { root, report, root_error, seen, .. } = self;
        match root_error {
            Some(m) => Err(ScanError::RootUnreadable(m)),
            None => {
                let mut root = root;
                let ghost built = root;
                calculate_dir_sizes(&mut root);
                let ghost summed = root;
                sort_tree(&mut root);
                proof {
                    assert forall|p: Seq<Seq<char>>| p.len() > 0 implies agrees_at(
                        #[trigger] lookup(root, p),
                        seen@,
                        p,
                    ) by {
                        assert(built_at(lookup(built, p), seen@, p));
                        assert(shape_kept(lookup(built, p), lookup(summed, p)));
                        assert(summary(lookup(root, p)) == summary(lookup(summed, p)));
                    }
                }
                Ok((root, report))
            },
        }
    }
}

} // verus!
