//! The decisions of importing and syncing a knowledge base. Reading the disk and
//! watching it are left to the caller, which hands over what it found.

use crate::aggregates::Page;
use crate::base::DomainError;
use crate::parser::{fresh_page_id, LogseqMarkdownParser, ParseError, ParseResult};
use crate::repository::PageRepository;
use crate::text::string_of;
use crate::value_objects::{decimal, decimal_digits, ImportProgress, LogseqDirectoryPath, PageId};
use crate::watcher::FileEventKind;
use vstd::prelude::*;

verus! {

/// Why an import failed.
#[derive(Debug)]
pub enum ImportError {
    InvalidDirectory(String),
    FileSystem(String),
    Parse(ParseError),
    Repository(DomainError),
    Domain(String),
}

/// Progress of an import, as reported to the caller.
#[derive(Debug)]
pub enum ImportProgressEvent {
    Started { total_files: usize },
    FileProcessed { file_path: String, progress: ImportProgress },
    Completed { pages_imported: usize, duration_ms: u64 },
    Failed { error: String, files_processed: usize },
}

/// What an import did.
#[derive(Debug)]
pub struct ImportSummary {
    pub total_files: usize,
    pub pages_imported: usize,
    pub errors: Vec<(String, String)>,
    pub duration_ms: u64,
}

pub open spec fn error_views(v: Seq<(String, String)>) -> Seq<(Seq<char>, Seq<char>)> {
    v.map_values(|e: (String, String)| (e.0@, e.1@))
}

impl ImportSummary {
    /// An empty summary for `total_files` files.
    pub fn new(total_files: usize) -> (r: ImportSummary)
        ensures
            r.total_files == total_files,
            r.pages_imported == 0,
            r.errors@.len() == 0,
            r.duration_ms == 0,
    {
        ImportSummary { total_files, pages_imported: 0, errors: Vec::new(), duration_ms: 0 }
    }

    pub fn has_errors(&self) -> (r: bool)
        ensures
            r == (self.errors@.len() > 0),
    {
        self.errors.len() > 0
    }
}

/// Counts one processed file: an `Ok` outcome is one more page imported, an error is recorded
/// with the file's path; either way the file counts as processed.
pub fn tally_file(
    file_path: String,
    outcome: Result<(), String>,
    summary: &mut ImportSummary,
    progress: &mut ImportProgress,
) -> (r: ImportProgressEvent)
    requires
        old(progress).processed() < usize::MAX,
        old(summary).pages_imported < usize::MAX,
    ensures
        final(progress).processed() == old(progress).processed() + 1,
        final(progress).total() == old(progress).total(),
        final(progress).current() is None,
        final(summary).total_files == old(summary).total_files,
        final(summary).duration_ms == old(summary).duration_ms,
        outcome is Ok ==> final(summary).pages_imported == old(summary).pages_imported + 1
            && final(summary).errors@ == old(summary).errors@,
        outcome matches Err(m) ==> final(summary).pages_imported == old(summary).pages_imported
            && error_views(final(summary).errors@) == error_views(old(summary).errors@).push((file_path@, m@)),
        (r matches ImportProgressEvent::FileProcessed { file_path: f, progress: p } && f@ == file_path@
            && p.processed() == final(progress).processed() && p.total() == final(progress).total()),
{
    let path_copy = file_path.clone();
    match outcome {
        Ok(()) => {
            summary.pages_imported = summary.pages_imported + 1;
        },
        Err(msg) => {
            let ghost before = summary.errors@;
            let ghost m = msg@;
            summary.errors.push((file_path, msg));
            proof {
                assert(error_views(summary.errors@) =~= error_views(before).push((path_copy@, m)));
            }
        },
    }
    progress.increment();
    progress.set_current_file(None);
    ImportProgressEvent::FileProcessed { file_path: path_copy, progress: progress.clone() }
}

pub open spec fn failed_suffix() -> Seq<char> {
    seq![' ', 'f', 'i', 'l', 'e', 's', ' ', 'f', 'a', 'i', 'l', 'e', 'd', ' ', 't', 'o', ' ', 'i', 'm', 'p', 'o', 'r', 't']
}

/// Parses files and saves their pages to a repository, one file at a time.
pub struct ImportService<R: PageRepository> {
    repository: R,
    max_concurrent_files: usize,
}

impl<R: PageRepository> ImportService<R> {
    pub closed spec fn concurrency(&self) -> nat {
        self.max_concurrent_files as nat
    }

    /// A service over `repository` that reads at most four files at once.
    pub fn new(repository: R) -> (r: Self)
        ensures
            r.concurrency() == 4,
    {
        ImportService { repository, max_concurrent_files: 4 }
    }

    pub fn with_concurrency(self, max_concurrent: usize) -> (r: Self)
        ensures
            r.concurrency() == max_concurrent,
    {
        ImportService { max_concurrent_files: max_concurrent, ..self }
    }

    pub fn max_concurrent_files(&self) -> (r: usize)
        ensures
            r == self.concurrency(),
    {
        self.max_concurrent_files
    }

    pub fn repository(&self) -> (r: &R) {
        &self.repository
    }

    pub fn into_repository(self) -> (r: R) {
        self.repository
    }

    /// Takes the parse outcome of one file: saves the page, or records the error, then counts
    /// the file as processed. What the repository answered is counted by `tally_file`.
    pub fn record_file(
        &mut self,
        file_path: String,
        parsed: ParseResult<Page>,
        summary: &mut ImportSummary,
        progress: &mut ImportProgress,
    ) -> (r: ImportProgressEvent)
        requires
            parsed matches Ok(p) ==> p.wf(),
            old(progress).processed() < usize::MAX,
            old(summary).pages_imported < usize::MAX,
        ensures
            final(progress).processed() == old(progress).processed() + 1,
            final(progress).total() == old(progress).total(),
            final(progress).current() is None,
            final(summary).total_files == old(summary).total_files,
            final(summary).duration_ms == old(summary).duration_ms,
            parsed matches Err(e) ==> final(summary).pages_imported == old(summary).pages_imported
                && error_views(final(summary).errors@) == error_views(old(summary).errors@).push((file_path@, e.text())),
            parsed is Ok ==> (final(summary).pages_imported == old(summary).pages_imported + 1
                && final(summary).errors@ == old(summary).errors@) || (final(summary).pages_imported
                == old(summary).pages_imported && exists|e: DomainError| error_views(final(summary).errors@)
                == error_views(old(summary).errors@).push((file_path@, #[trigger] e.label() + e.message()))),
            (r matches ImportProgressEvent::FileProcessed { file_path: f, progress: p } && f@ == file_path@
                && p.processed() == final(progress).processed() && p.total() == final(progress).total()),
    {
        let outcome: Result<(), String> = match parsed {
            Ok(page) => match self.repository.save(page) {
                Ok(()) => Ok(()),
                Err(e) => Err(e.to_string()),
            },
            Err(e) => Err(e.to_string()),
        };
        tally_file(file_path, outcome, summary, progress)
    }

    /// The closing event: `Completed` when no file failed, else `Failed` with the count.
    pub fn finish(&self, summary: &ImportSummary, progress: &ImportProgress) -> (r: ImportProgressEvent)
        ensures
            summary.errors@.len() == 0 ==> r == (ImportProgressEvent::Completed {
                pages_imported: summary.pages_imported,
                duration_ms: summary.duration_ms,
            }),
            summary.errors@.len() > 0 ==> (r matches ImportProgressEvent::Failed { error: e, files_processed: n }
                && e@ == decimal(summary.errors@.len()) + failed_suffix() && n == progress.processed()),
    {
        if summary.errors.len() == 0 {
            ImportProgressEvent::Completed {
                pages_imported: summary.pages_imported,
                duration_ms: summary.duration_ms,
            }
        } else {
            let mut text = decimal_digits(summary.errors.len());
            let mut tail = vec![' ', 'f', 'i', 'l', 'e', 's', ' ', 'f', 'a', 'i', 'l', 'e', 'd', ' ', 't', 'o', ' ', 'i', 'm', 'p', 'o', 'r', 't'];
            text.append(&mut tail);
            let error = string_of(text.as_slice());
            proof {
                assert(error@ =~= decimal(summary.errors@.len()) + failed_suffix());
            }
            ImportProgressEvent::Failed { error, files_processed: progress.files_processed() }
        }
    }
}

/// Why a sync step failed.
#[derive(Debug)]
pub enum SyncError {
    FileSystem(String),
    Parse(ParseError),
    Repository(DomainError),
    Watcher(String),
}

pub open spec fn repository_label() -> Seq<char> {
    seq!['R', 'e', 'p', 'o', 's', 'i', 't', 'o', 'r', 'y', ' ', 'e', 'r', 'r', 'o', 'r', ':', ' ']
}

pub open spec fn parse_label() -> Seq<char> {
    seq!['P', 'a', 'r', 's', 'e', ' ', 'e', 'r', 'r', 'o', 'r', ':', ' ']
}

impl SyncError {
    /// The error rendered for people, for the two kinds that a sync step raises itself.
    pub fn to_string(&self) -> (r: String)
        ensures
            self matches SyncError::Parse(e) ==> r@ == parse_label() + e.text(),
            self matches SyncError::Repository(e) ==> r@ == repository_label() + e.label() + e.message(),
            self matches SyncError::FileSystem(m) ==> r@ == m@,
            self matches SyncError::Watcher(m) ==> r@ == m@,
    {
        match self {
            SyncError::FileSystem(m) => m.clone(),
            SyncError::Watcher(m) => m.clone(),
            SyncError::Parse(e) => {
                let head = string_of(vec!['P', 'a', 'r', 's', 'e', ' ', 'e', 'r', 'r', 'o', 'r', ':', ' '].as_slice());
                let inner = e.to_string();
                let r = head.concat(inner.as_str());
                proof {
                    assert(r@ =~= parse_label() + e.text());
                }
                r
            },
            SyncError::Repository(e) => {
                let head = string_of(
                    vec!['R', 'e', 'p', 'o', 's', 'i', 't', 'o', 'r', 'y', ' ', 'e', 'r', 'r', 'o', 'r', ':', ' '].as_slice(),
                );
                let inner = e.to_string();
                let r = head.concat(inner.as_str());
                proof {
                    assert(r@ =~= repository_label() + e.label() + e.message());
                }
                r
            },
        }
    }
}

/// What a sync reports as it goes.
#[derive(Debug)]
pub enum SyncEvent {
    SyncStarted,
    FileCreated { file_path: String },
    FileUpdated { file_path: String },
    FileDeleted { file_path: String },
    SyncCompleted { files_created: usize, files_updated: usize, files_deleted: usize },
    Error { file_path: String, error: String },
}

/// What a one-shot sync did.
#[derive(Debug)]
pub struct SyncSummary {
    pub files_created: usize,
    pub files_updated: usize,
    pub files_deleted: usize,
    pub files_unchanged: usize,
    pub errors: Vec<(String, String)>,
}

impl SyncSummary {
    pub fn new() -> (r: SyncSummary)
        ensures
            r.files_created == 0,
            r.files_updated == 0,
            r.files_deleted == 0,
            r.files_unchanged == 0,
            r.errors@.len() == 0,
    {
        SyncSummary { files_created: 0, files_updated: 0, files_deleted: 0, files_unchanged: 0, errors: Vec::new() }
    }

    /// The closing event of the sync.
    pub fn completed_event(&self) -> (r: SyncEvent)
        ensures
            r == (SyncEvent::SyncCompleted {
                files_created: self.files_created,
                files_updated: self.files_updated,
                files_deleted: self.files_deleted,
            }),
    {
        SyncEvent::SyncCompleted {
            files_created: self.files_created,
            files_updated: self.files_updated,
            files_deleted: self.files_deleted,
        }
    }
}

/// Counts of one batch of watched changes.
#[derive(Debug)]
pub struct SyncStats {
    pub files_created: usize,
    pub files_updated: usize,
    pub files_deleted: usize,
}

impl Default for SyncStats {
    fn default() -> (r: Self)
        ensures
            r.files_created == 0,
            r.files_updated == 0,
            r.files_deleted == 0,
    {
        SyncStats { files_created: 0, files_updated: 0, files_deleted: 0 }
    }
}

/// How a file on disk compares with what was last synced.
#[derive(Debug, Clone, Copy, PartialEq, Eq, Structural)]
pub enum FileChange {
    New,
    Updated,
    Unchanged,
}

/// The last synced state of one file.
#[derive(Debug)]
pub struct FileRecord {
    pub path: String,
    pub title: String,
    pub last_modified: u128,
}

/// The classification of a file seen with modification time `m`, given its record.
pub open spec fn change_of(entry: Option<(Seq<char>, u128)>, m: u128) -> FileChange {
    match entry {
        None => FileChange::New,
        Some(e) => if m > e.1 {
            FileChange::Updated
        } else {
            FileChange::Unchanged
        },
    }
}

/// The paths of `recorded` that are not among `current`, in record order.
pub open spec fn stale(recorded: Seq<Seq<char>>, current: Seq<Seq<char>>) -> Seq<Seq<char>>
    decreases recorded.len(),
{
    if recorded.len() == 0 {
        Seq::empty()
    } else {
        stale(recorded.drop_last(), current) + (if current.contains(recorded.last()) {
            Seq::empty()
        } else {
            seq![recorded.last()]
        })
    }
}

/// The files synced so far, one record per path.
pub struct SyncRegistry {
    records: Vec<FileRecord>,
}

impl SyncRegistry {
    pub closed spec fn paths(&self) -> Seq<Seq<char>> {
        self.records@.map_values(|r: FileRecord| r.path@)
    }

    /// The record of `path`: its title and last modification time.
    pub closed spec fn lookup(&self, path: Seq<char>) -> Option<(Seq<char>, u128)> {
        if exists|i: int| 0 <= i < self.records@.len() && (#[trigger] self.records@[i]).path@ == path {
            let i = choose|i: int| 0 <= i < self.records@.len() && (#[trigger] self.records@[i]).path@ == path;
            Some((self.records@[i].title@, self.records@[i].last_modified))
        } else {
            None
        }
    }

    #[verifier::type_invariant]
    closed spec fn unique_paths(self) -> bool {
        forall|i: int, j: int| 0 <= i < self.records@.len() && 0 <= j < self.records@.len() && i != j
            ==> (#[trigger] self.records@[i]).path@ != (#[trigger] self.records@[j]).path@
    }

    pub fn new() -> (r: SyncRegistry)
        ensures
            forall|p: Seq<char>| r.lookup(p) is None,
            r.paths().len() == 0,
    {
        let r = SyncRegistry { records: Vec::new() };
        proof {
            assert(r.paths() =~= Seq::<Seq<char>>::empty());
        }
        r
    }

    fn position(&self, path: &str) -> (r: Option<usize>)
        ensures
            r matches Some(i) ==> i < self.records@.len() && self.records@[i as int].path@ == path@ && self.lookup(path@) == Some((self.records@[i as int].title@, self.records@[i as int].last_modified)),
            r is None ==> self.lookup(path@) is None && !self.paths().contains(path@),
    {
        proof {
            use_type_invariant(self);
        }
        let mut i: usize = 0;
        while i < self.records.len()
            invariant
                i <= self.records@.len(),
                forall|j: int| 0 <= j < i ==> (#[trigger] self.records@[j]).path@ != path@,
            decreases self.records.len() - i,
        {
            if crate::text::same_text(self.records[i].path.as_str(), path) {
                proof {
                    use_type_invariant(self);
                    let k = choose|k: int| 0 <= k < self.records@.len() && (#[trigger] self.records@[k]).path@ == path@;
                    assert(self.records@[i as int].path@ == path@);
                    assert(k == i);
                }
                return Some(i);
            }
            i = i + 1;
        }
        proof {
            if self.paths().contains(path@) {
                let k = choose|k: int| 0 <= k < self.paths().len() && self.paths()[k] == path@;
                assert(self.records@[k].path@ == path@);
            }
        }
        None
    }

    /// The number of recorded files.
    pub fn len(&self) -> (r: usize)
        ensures
            r == self.paths().len(),
    {
        self.records.len()
    }

    /// How the file at `path`, last modified at `modified`, compares with its record.
    pub fn classify(&self, path: &str, modified: u128) -> (r: FileChange)
        ensures
            r == change_of(self.lookup(path@), modified),
    {
        match self.position(path) {
            None => FileChange::New,
            Some(i) => if modified > self.records[i].last_modified {
                FileChange::Updated
            } else {
                FileChange::Unchanged
            },
        }
    }

    /// Records that `path`, titled `title`, was synced at modification time `modified`.
    pub fn record(&mut self, path: &str, title: &str, modified: u128)
        ensures
            final(self).lookup(path@) == Some((title@, modified)),
            forall|p: Seq<char>| p != path@ ==> final(self).lookup(p) == old(self).lookup(p),
            final(self).paths().len() <= old(self).paths().len() + 1,
    {
        proof {
            use_type_invariant(&*self);
        }
        let pos = self.position(path);
        let rec = FileRecord { path: path.to_string(), title: title.to_string(), last_modified: modified };
        let mut records: Vec<FileRecord> = Vec::new();
        std::mem::swap(&mut records, &mut self.records);
        let ghost old_records = records@;
        match pos {
            Some(i) => {
                records.set(i, rec);
            },
            None => {
                records.push(rec);
            },
        }
        proof {
            assert forall|a: int, b: int| 0 <= a < records@.len() && 0 <= b < records@.len() && a != b implies (#[trigger] records@[a]).path@ != (#[trigger] records@[b]).path@ by {
                if a < old_records.len() && b < old_records.len() && !(pos matches Some(i) && (i == a || i == b)) {
                    assert(records@[a] == old_records[a]);
                    assert(records@[b] == old_records[b]);
                } else if pos is Some {
                    let i = pos->0;
                    if a == i {
                        assert(records@[b] == old_records[b]);
                        assert(old_records[i as int].path@ != old_records[b].path@);
                    } else {
                        assert(records@[a] == old_records[a]);
                        assert(old_records[i as int].path@ != old_records[a].path@);
                    }
                } else if a == old_records.len() {
                    assert(records@[b] == old_records[b]);
                    assert(!old_records.map_values(|r: FileRecord| r.path@).contains(path@));
                    assert(old_records.map_values(|r: FileRecord| r.path@)[b] == old_records[b].path@);
                } else {
                    assert(records@[a] == old_records[a]);
                    assert(old_records.map_values(|r: FileRecord| r.path@)[a] == old_records[a].path@);
                }
            }
        }
        self.records = records;
        proof {
            let n = self.records@.len();
            let k = if let Some(i) = pos { i as int } else { n - 1 };
            assert(self.records@[k].path@ == path@);
            assert forall|p: Seq<char>| p != path@ implies #[trigger] self.lookup(p) == old(self).lookup(p) by {
                if exists|i: int| 0 <= i < self.records@.len() && (#[trigger] self.records@[i]).path@ == p {
                    let i = choose|i: int| 0 <= i < self.records@.len() && (#[trigger] self.records@[i]).path@ == p;
                    assert(i != k);
                    assert(self.records@[i] == old_records[i]);
                    assert(old(self).records@[i].path@ == p);
                }
                if exists|i: int| 0 <= i < old(self).records@.len() && (#[trigger] old(self).records@[i]).path@ == p {
                    let i = choose|i: int| 0 <= i < old(self).records@.len() && (#[trigger] old(self).records@[i]).path@ == p;
                    assert(i != k);
                    assert(self.records@[i] == old_records[i]);
                    assert(self.records@[i].path@ == p);
                }
            }
        }
    }

    /// Drops the record of `path`, returning the title it had.
    pub fn forget(&mut self, path: &str) -> (r: Option<String>)
        ensures
            final(self).lookup(path@) is None,
            forall|p: Seq<char>| p != path@ ==> final(self).lookup(p) == old(self).lookup(p),
            r matches Some(t) ==> (old(self).lookup(path@) matches Some(e) && e.0 == t@),
            r is None ==> old(self).lookup(path@) is None,
    {
        proof {
            use_type_invariant(&*self);
        }
        match self.position(path) {
            None => None,
            Some(i) => {
                let mut records: Vec<FileRecord> = Vec::new();
                std::mem::swap(&mut records, &mut self.records);
                let ghost old_records = records@;
                let removed = records.remove(i);
                proof {
                    assert forall|a: int, b: int| 0 <= a < records@.len() && 0 <= b < records@.len() && a != b implies (#[trigger] records@[a]).path@ != (#[trigger] records@[b]).path@ by {
                        let oa = if a < i { a } else { a + 1 };
                        let ob = if b < i { b } else { b + 1 };
                        assert(records@[a] == old_records[oa]);
                        assert(records@[b] == old_records[ob]);
                    }
                }
                self.records = records;
                proof {
                    assert forall|p: Seq<char>| #![auto] self.lookup(p) == (if p == path@ { None } else { old(self).lookup(p) }) by {
                        if exists|j: int| 0 <= j < self.records@.len() && (#[trigger] self.records@[j]).path@ == p {
                            let j = choose|j: int| 0 <= j < self.records@.len() && (#[trigger] self.records@[j]).path@ == p;
                            let oj = if j < i { j } else { j + 1 };
                            assert(self.records@[j] == old_records[oj]);
                            assert(oj != i);
                            assert(old(self).records@[oj].path@ == p);
                        }
                        if p != path@ && exists|j: int| 0 <= j < old(self).records@.len() && (#[trigger] old(self).records@[j]).path@ == p {
                            let j = choose|j: int| 0 <= j < old(self).records@.len() && (#[trigger] old(self).records@[j]).path@ == p;
                            assert(j != i);
                            let nj = if j < i { j } else { j - 1 };
                            assert(self.records@[nj] == old_records[j]);
                            assert(self.records@[nj].path@ == p);
                        }
                    }
                }
                Some(removed.title)
            },
        }
    }

    /// The recorded paths that are not among `current`, in record order.
    pub fn stale_paths(&self, current: &Vec<String>) -> (r: Vec<String>)
        ensures
            r@.map_values(|s: String| s@) == stale(self.paths(), current@.map_values(|s: String| s@)),
    {
        let ghost cur = current@.map_values(|s: String| s@);
        let ghost ps = self.paths();
        let mut out: Vec<String> = Vec::new();
        let mut i: usize = 0;
        while i < self.records.len()
            invariant
                i <= self.records@.len(),
                ps == self.paths(),
                cur == current@.map_values(|s: String| s@),
                out@.map_values(|s: String| s@) == stale(ps.take(i as int), cur),
            decreases self.records.len() - i,
        {
            let path = &self.records[i].path;
            let mut k: usize = 0;
            let mut seen = false;
            while k < current.len() && !seen
                invariant
                    k <= current@.len(),
                    cur == current@.map_values(|s: String| s@),
                    seen ==> cur.contains(path@),
                    !seen ==> forall|j: int| 0 <= j < k ==> cur[j] != path@,
                decreases current.len() - k + (if seen { 0int } else { 1int }),
            {
                if crate::text::same_text(current[k].as_str(), path.as_str()) {
                    proof {
                        assert(cur[k as int] == path@);
                    }
                    seen = true;
                } else {
                    k = k + 1;
                }
            }
            proof {
                assert(ps.take(i + 1).drop_last() =~= ps.take(i as int));
                assert(ps.take(i + 1).last() == path@);
                if !seen {
                    assert(!cur.contains(path@));
                }
            }
            if !seen {
                let ghost before = out@;
                out.push(path.clone());
                proof {
                    assert(out@.map_values(|s: String| s@) =~= before.map_values(|s: String| s@).push(path@));
                }
            }
            i = i + 1;
        }
        proof {
            assert(ps.take(self.records@.len() as int) =~= ps);
        }
        out
    }
}

/// The identifier a synced page is saved under: that of the stored page with its title when
/// there is one, else a fresh one.
pub fn page_id_for(existing: &Option<Page>) -> (r: PageId)
    ensures
        existing matches Some(p) ==> r@ == p.id_view(),
{
    match existing {
        Some(p) => p.page_id().clone(),
        None => fresh_page_id(),
    }
}

/// Keeps a repository in step with the files of a knowledge base.
pub struct SyncService<R: PageRepository> {
    repository: R,
    directory_path: LogseqDirectoryPath,
    registry: SyncRegistry,
}

impl<R: PageRepository> SyncService<R> {
    pub closed spec fn registry_view(&self) -> SyncRegistry {
        self.registry
    }

    /// A service over `repository` for the knowledge base at `directory_path`, with nothing
    /// synced yet.
    pub fn new(repository: R, directory_path: LogseqDirectoryPath) -> (r: Self)
        ensures
            forall|p: Seq<char>| r.registry_view().lookup(p) is None,
    {
        SyncService { repository, directory_path, registry: SyncRegistry::new() }
    }

    pub fn directory_path(&self) -> (r: &LogseqDirectoryPath) {
        &self.directory_path
    }

    pub fn repository(&self) -> (r: &R) {
        &self.repository
    }

    pub fn registry(&self) -> (r: &SyncRegistry)
        ensures
            *r == self.registry_view(),
    {
        &self.registry
    }

    /// How the file at `path`, last modified at `modified`, compares with what was synced.
    pub fn classify(&self, path: &str, modified: u128) -> (r: FileChange)
        ensures
            r == change_of(self.registry_view().lookup(path@), modified),
    {
        self.registry.classify(path, modified)
    }

    /// Parses `content` as the page `title` and saves it, under the identifier of the stored
    /// page of that title when there is one; true when there was.
    fn store_file(&mut self, title: &str, content: &str) -> (r: Result<bool, SyncError>)
        ensures
            final(self).registry_view() == old(self).registry_view(),
            !crate::parser::well_nested(crate::parser::entries_of_text(content@)) ==> r is Err,
    {
        let existing = match self.repository.find_by_title(title) {
            Ok(p) => p,
            Err(e) => {
                return Err(SyncError::Repository(e));
            },
        };
        let page_id = page_id_for(&existing);
        let page = match LogseqMarkdownParser::parse_content(content, page_id, title.to_string()) {
            Ok(p) => p,
            Err(e) => {
                return Err(SyncError::Parse(e));
            },
        };
        match self.repository.save(page) {
            Ok(()) => Ok(existing.is_some()),
            Err(e) => Err(SyncError::Repository(e)),
        }
    }

    /// Syncs one file found on disk: an unchanged file is only counted; a new or changed one
    /// is parsed from `content` and saved, then recorded. A failure is recorded in the summary
    /// and reported as an `Error` event.
    pub fn sync_file(
        &mut self,
        path: &str,
        title: &str,
        modified: u128,
        content: &str,
        summary: &mut SyncSummary,
    ) -> (r: Option<SyncEvent>)
        requires
            old(summary).files_created < usize::MAX,
            old(summary).files_updated < usize::MAX,
            old(summary).files_unchanged < usize::MAX,
        ensures
            final(summary).files_deleted == old(summary).files_deleted,
            change_of(old(self).registry_view().lookup(path@), modified) == FileChange::Unchanged ==> {
                &&& r is None
                &&& final(summary).files_unchanged == old(summary).files_unchanged + 1
                &&& final(summary).files_created == old(summary).files_created
                &&& final(summary).files_updated == old(summary).files_updated
                &&& final(summary).errors@ == old(summary).errors@
                &&& final(self).registry_view() == old(self).registry_view()
            },
            change_of(old(self).registry_view().lookup(path@), modified) != FileChange::Unchanged ==> {
                &&& r is Some
                &&& final(summary).files_unchanged == old(summary).files_unchanged
                &&& (r matches Some(SyncEvent::FileCreated { file_path }) ==> (file_path@ == path@
                    && final(summary).files_created == old(summary).files_created + 1
                    && final(summary).files_updated == old(summary).files_updated
                    && final(self).registry_view().lookup(path@) == Some((title@, modified))))
                &&& (r matches Some(SyncEvent::FileUpdated { file_path }) ==> (file_path@ == path@
                    && final(summary).files_updated == old(summary).files_updated + 1
                    && final(summary).files_created == old(summary).files_created
                    && final(self).registry_view().lookup(path@) == Some((title@, modified))))
                &&& (r matches Some(SyncEvent::Error { file_path, error }) ==> (file_path@ == path@
                    && final(summary).files_created == old(summary).files_created
                    && final(summary).files_updated == old(summary).files_updated
                    && error_views(final(summary).errors@) == error_views(old(summary).errors@).push((path@, error@))
                    && final(self).registry_view() == old(self).registry_view()))
                &&& (r matches Some(SyncEvent::FileCreated { .. })) || (r matches Some(SyncEvent::FileUpdated { .. })) || (r matches Some(SyncEvent::Error { .. }))
                &&& !crate::parser::well_nested(crate::parser::entries_of_text(content@)) ==> (r matches Some(SyncEvent::Error { .. }))
            },
            forall|p: Seq<char>| p != path@ ==> final(self).registry_view().lookup(p) == old(self).registry_view().lookup(p),
            final(self).registry_view().paths().len() <= old(self).registry_view().paths().len() + 1,
    {
        match self.registry.classify(path, modified) {
            FileChange::Unchanged => {
                summary.files_unchanged = summary.files_unchanged + 1;
                None
            },
            _ => {
                let stored = self.store_file(title, content);
                self.settle_file(path, title, modified, stored, summary)
            },
        }
    }

    /// What syncing a new or changed file reports, given what storing its page gave: `Ok(true)`
    /// (a page of that title was stored before) is an update, `Ok(false)` a creation; both are
    /// recorded in the registry. An error is recorded in the summary and reported.
    pub fn settle_file(
        &mut self,
        path: &str,
        title: &str,
        modified: u128,
        stored: Result<bool, SyncError>,
        summary: &mut SyncSummary,
    ) -> (r: Option<SyncEvent>)
        requires
            old(summary).files_created < usize::MAX,
            old(summary).files_updated < usize::MAX,
        ensures
            final(summary).files_deleted == old(summary).files_deleted,
            final(summary).files_unchanged == old(summary).files_unchanged,
            stored matches Ok(true) ==> (r matches Some(SyncEvent::FileUpdated { file_path }) && file_path@ == path@
                && final(summary).files_updated == old(summary).files_updated + 1
                && final(summary).files_created == old(summary).files_created
                && final(summary).errors@ == old(summary).errors@
                && final(self).registry_view().lookup(path@) == Some((title@, modified))),
            stored matches Ok(false) ==> (r matches Some(SyncEvent::FileCreated { file_path }) && file_path@ == path@
                && final(summary).files_created == old(summary).files_created + 1
                && final(summary).files_updated == old(summary).files_updated
                && final(summary).errors@ == old(summary).errors@
                && final(self).registry_view().lookup(path@) == Some((title@, modified))),
            stored is Err ==> (r matches Some(SyncEvent::Error { file_path, error }) && file_path@ == path@
                && final(summary).files_created == old(summary).files_created
                && final(summary).files_updated == old(summary).files_updated
                && error_views(final(summary).errors@) == error_views(old(summary).errors@).push((path@, error@))
                && final(self).registry_view() == old(self).registry_view()),
            forall|p: Seq<char>| p != path@ ==> final(self).registry_view().lookup(p) == old(self).registry_view().lookup(p),
            final(self).registry_view().paths().len() <= old(self).registry_view().paths().len() + 1,
    {
        match stored {
            Ok(existed) => {
                self.registry.record(path, title, modified);
                if existed {
                    summary.files_updated = summary.files_updated + 1;
                    Some(SyncEvent::FileUpdated { file_path: path.to_string() })
                } else {
                    summary.files_created = summary.files_created + 1;
                    Some(SyncEvent::FileCreated { file_path: path.to_string() })
                }
            },
            Err(e) => {
                let msg = e.to_string();
                let ghost before = summary.errors@;
                summary.errors.push((path.to_string(), msg.clone()));
                proof {
                    assert(error_views(summary.errors@) =~= error_views(before).push((path@, msg@)));
                }
                Some(SyncEvent::Error { file_path: path.to_string(), error: msg })
            },
        }
    }

    /// One reconciliation over the files found on disk, in discovery order: each is synced as
    /// `sync_file` does, then the recorded files that are gone are deleted. When every file is
    /// recorded with a modification time no earlier than its own and every recorded file is
    /// still there, nothing is created, updated or deleted and every file counts as unchanged.
    pub fn sync_scan(&mut self, files: &Vec<ScannedFile>, summary: &mut SyncSummary) -> (r: Vec<SyncEvent>)
        requires
            old(summary).files_created + files@.len() <= usize::MAX,
            old(summary).files_updated + files@.len() <= usize::MAX,
            old(summary).files_unchanged + files@.len() <= usize::MAX,
            old(summary).files_deleted + old(self).registry_view().paths().len() + files@.len() <= usize::MAX,
        ensures
            all_unchanged(old(self).registry_view(), files@) && all_present(old(self).registry_view(), files@) ==> {
                &&& r@.len() == 0
                &&& final(summary).files_created == old(summary).files_created
                &&& final(summary).files_updated == old(summary).files_updated
                &&& final(summary).files_deleted == old(summary).files_deleted
                &&& final(summary).files_unchanged == old(summary).files_unchanged + files@.len()
                &&& final(summary).errors@ == old(summary).errors@
            },
    {
        let ghost reg0 = self.registry_view();
        let ghost quiet = all_unchanged(reg0, files@) && all_present(reg0, files@);
        let mut events: Vec<SyncEvent> = Vec::new();
        let mut current: Vec<String> = Vec::new();
        let mut i: usize = 0;
        while i < files.len()
            invariant
                i <= files@.len(),
                quiet == (all_unchanged(reg0, files@) && all_present(reg0, files@)),
                current@.map_values(|s: String| s@) == files@.take(i as int).map_values(|f: ScannedFile| f.path@),
                summary.files_created <= old(summary).files_created + i,
                summary.files_updated <= old(summary).files_updated + i,
                summary.files_unchanged <= old(summary).files_unchanged + i,
                summary.files_deleted == old(summary).files_deleted,
                self.registry_view().paths().len() <= reg0.paths().len() + i,
                old(summary).files_created + files@.len() <= usize::MAX,
                old(summary).files_updated + files@.len() <= usize::MAX,
                old(summary).files_unchanged + files@.len() <= usize::MAX,
                old(summary).files_deleted + reg0.paths().len() + files@.len() <= usize::MAX,
                reg0 == old(self).registry_view(),
                quiet ==> {
                    &&& events@.len() == 0
                    &&& self.registry_view() == reg0
                    &&& summary.files_created == old(summary).files_created
                    &&& summary.files_updated == old(summary).files_updated
                    &&& summary.files_unchanged == old(summary).files_unchanged + i
                    &&& summary.errors@ == old(summary).errors@
                },
            decreases files.len() - i,
        {
            let f = &files[i];
            let ev = self.sync_file(f.path.as_str(), f.title.as_str(), f.modified, f.content.as_str(), summary);
            proof {
                if quiet {
                    assert(reg0.lookup(files@[i as int].path@) matches Some(e) && files@[i as int].modified <= e.1);
                }
            }
            match ev {
                Some(e) => {
                    events.push(e);
                },
                None => {},
            }
            let ghost before = current@;
            current.push(f.path.clone());
            proof {
                assert(files@.take(i + 1) =~= files@.take(i as int).push(files@[i as int]));
                assert(current@.map_values(|s: String| s@) =~= before.map_values(|s: String| s@).push(f.path@));
            }
            i = i + 1;
        }
        proof {
            assert(files@.take(files@.len() as int) =~= files@);
            if quiet {
                let cur = current@.map_values(|s: String| s@);
                assert forall|k: int| 0 <= k < reg0.paths().len() implies cur.contains(#[trigger] reg0.paths()[k]) by {
                    assert(files@.map_values(|f: ScannedFile| f.path@).contains(reg0.paths()[k]));
                }
                lemma_stale_empty(reg0.paths(), cur);
            }
        }
        let mut gone = self.handle_deletions(&current, summary);
        events.append(&mut gone);
        events
    }

    /// Removes the page of a file that is gone, found through the title recorded for `path`;
    /// true when the repository deleted it.
    fn remove_file(&mut self, path: &str) -> (r: bool)
        ensures
            final(self).registry_view().lookup(path@) is None,
            forall|p: Seq<char>| p != path@ ==> final(self).registry_view().lookup(p) == old(self).registry_view().lookup(p),
    {
        match self.registry.forget(path) {
            None => false,
            Some(title) => match self.repository.find_by_title(title.as_str()) {
                Ok(Some(page)) => {
                    let id = page.page_id().clone();
                    self.repository.delete(&id).is_ok()
                },
                _ => false,
            },
        }
    }

    /// Forgets every recorded file that is no longer among `current`, deleting its page through
    /// the recorded title when the repository has one, and returns a `FileDeleted` event for
    /// each such file.
    pub fn handle_deletions(&mut self, current: &Vec<String>, summary: &mut SyncSummary) -> (r: Vec<SyncEvent>)
        requires
            old(summary).files_deleted + old(self).registry_view().paths().len() <= usize::MAX,
        ensures
            forall|p: Seq<char>|
                #![trigger final(self).registry_view().lookup(p)]
                stale(old(self).registry_view().paths(), current@.map_values(|s: String| s@)).contains(p)
                    ==> final(self).registry_view().lookup(p) is None,
            forall|p: Seq<char>|
                #![trigger final(self).registry_view().lookup(p)]
                !stale(old(self).registry_view().paths(), current@.map_values(|s: String| s@)).contains(p)
                    ==> final(self).registry_view().lookup(p) == old(self).registry_view().lookup(p),
            deleted_paths(r@) == stale(old(self).registry_view().paths(), current@.map_values(|s: String| s@)),
            r@.len() == stale(old(self).registry_view().paths(), current@.map_values(|s: String| s@)).len(),
            final(summary).files_deleted == old(summary).files_deleted + r@.len(),
            final(summary).files_created == old(summary).files_created,
            final(summary).files_updated == old(summary).files_updated,
            final(summary).files_unchanged == old(summary).files_unchanged,
            final(summary).errors@ == old(summary).errors@,
    {
        let gone = self.registry.stale_paths(current);
        let ghost gv = gone@.map_values(|s: String| s@);
        let ghost reg0 = self.registry_view();
        proof {
            lemma_stale_len(reg0.paths(), current@.map_values(|s: String| s@));
        }
        let mut events: Vec<SyncEvent> = Vec::new();
        let mut i: usize = 0;
        while i < gone.len()
            invariant
                i <= gone@.len(),
                gv == gone@.map_values(|s: String| s@),
                gv.len() <= reg0.paths().len(),
                deleted_paths(events@) == gv.take(i as int),
                events@.len() == i,
                summary.files_deleted + reg0.paths().len() - i <= usize::MAX,
                summary.files_deleted == old(summary).files_deleted + events@.len(),
                summary.files_created == old(summary).files_created,
                summary.files_updated == old(summary).files_updated,
                summary.files_unchanged == old(summary).files_unchanged,
                summary.errors@ == old(summary).errors@,
                old(summary).files_deleted + reg0.paths().len() <= usize::MAX,
                forall|p: Seq<char>| #![trigger self.registry_view().lookup(p)] gv.take(i as int).contains(p) ==> self.registry_view().lookup(p) is None,
                forall|p: Seq<char>| #![trigger self.registry_view().lookup(p)] !gv.take(i as int).contains(p) ==> self.registry_view().lookup(p) == reg0.lookup(p),
            decreases gone.len() - i,
        {
            let path = &gone[i];
            let _ = self.remove_file(path.as_str());
            proof {
                assert(gv[i as int] == path@);
                assert forall|p: Seq<char>| #![trigger self.registry_view().lookup(p)] gv.take(i + 1).contains(p) implies self.registry_view().lookup(p) is None by {
                    let k = choose|k: int| 0 <= k < i + 1 && #[trigger] gv.take(i + 1)[k] == p;
                    if k < i {
                        assert(gv.take(i as int)[k] == p);
                        assert(gv.take(i as int).contains(p));
                    }
                }
                assert forall|p: Seq<char>| #![trigger self.registry_view().lookup(p)] !gv.take(i + 1).contains(p) implies self.registry_view().lookup(p) == reg0.lookup(p) by {
                    if gv.take(i as int).contains(p) {
                        let k = choose|k: int| 0 <= k < i && #[trigger] gv.take(i as int)[k] == p;
                        assert(gv.take(i + 1)[k] == p);
                    }
                    assert(gv.take(i + 1)[i as int] == path@);
                }
            }
            summary.files_deleted = summary.files_deleted + 1;
            let ghost before = events@;
            let ev = SyncEvent::FileDeleted { file_path: path.clone() };
            proof {
                assert(ev matches SyncEvent::FileDeleted { file_path } && file_path@ == path@);
            }
            events.push(ev);
            proof {
                assert(events@.drop_last() =~= before);
                assert(events@.last() == ev);
                assert(deleted_paths(events@) =~= deleted_paths(before).push(path@));
                assert(gv.take(i + 1) =~= gv.take(i as int).push(path@));
            }
            i = i + 1;
        }
        proof {
            assert(gv.take(gone@.len() as int) =~= gv);
        }
        events
    }

    /// Applies one watched change. A created or modified file is parsed from `content` and
    /// saved; a deleted file has its page deleted through the recorded title.
    pub fn process_event(
        &mut self,
        kind: FileEventKind,
        path: &str,
        title: &str,
        modified: u128,
        content: &str,
        stats: &mut SyncStats,
    ) -> (r: SyncEvent)
        requires
            old(stats).files_created < usize::MAX,
            old(stats).files_updated < usize::MAX,
            old(stats).files_deleted < usize::MAX,
        ensures
            kind == FileEventKind::Deleted ==> ((r matches SyncEvent::FileDeleted { file_path } && file_path@ == path@)
                && final(self).registry_view().lookup(path@) is None
                && final(stats).files_deleted == old(stats).files_deleted + 1),
            kind == FileEventKind::Created ==> (r matches SyncEvent::FileCreated { file_path } && file_path@ == path@
                && final(stats).files_created == old(stats).files_created + 1)
                || (r matches SyncEvent::Error { file_path, .. } && file_path@ == path@
                && final(stats).files_created == old(stats).files_created),
            kind == FileEventKind::Modified ==> (r matches SyncEvent::FileUpdated { file_path } && file_path@ == path@
                && final(stats).files_updated == old(stats).files_updated + 1)
                || (r matches SyncEvent::Error { file_path, .. } && file_path@ == path@
                && final(stats).files_updated == old(stats).files_updated),
            kind != FileEventKind::Deleted && !crate::parser::well_nested(crate::parser::entries_of_text(content@))
                ==> (r matches SyncEvent::Error { .. }),
    {
        match kind {
            FileEventKind::Deleted => {
                let _ = self.remove_file(path);
                stats.files_deleted = stats.files_deleted + 1;
                SyncEvent::FileDeleted { file_path: path.to_string() }
            },
            _ => {
                let stored = self.store_file(title, content);
                self.settle_event(kind, path, title, modified, stored, stats)
            },
        }
    }

    /// What a watched creation or modification reports, given what storing its page gave: on
    /// success the file is recorded and counted by its kind; an error is reported.
    pub fn settle_event(
        &mut self,
        kind: FileEventKind,
        path: &str,
        title: &str,
        modified: u128,
        stored: Result<bool, SyncError>,
        stats: &mut SyncStats,
    ) -> (r: SyncEvent)
        requires
            kind != FileEventKind::Deleted,
            old(stats).files_created < usize::MAX,
            old(stats).files_updated < usize::MAX,
        ensures
            final(stats).files_deleted == old(stats).files_deleted,
            stored is Ok && kind == FileEventKind::Created ==> (r matches SyncEvent::FileCreated { file_path }
                && file_path@ == path@ && final(stats).files_created == old(stats).files_created + 1
                && final(stats).files_updated == old(stats).files_updated),
            stored is Ok && kind == FileEventKind::Modified ==> (r matches SyncEvent::FileUpdated { file_path }
                && file_path@ == path@ && final(stats).files_updated == old(stats).files_updated + 1
                && final(stats).files_created == old(stats).files_created),
            stored is Ok ==> final(self).registry_view().lookup(path@) == Some((title@, modified)),
            stored is Err ==> (r matches SyncEvent::Error { file_path, .. } && file_path@ == path@
                && final(stats).files_created == old(stats).files_created
                && final(stats).files_updated == old(stats).files_updated
                && final(self).registry_view() == old(self).registry_view()),
    {
        match stored {
            Ok(_) => {
                self.registry.record(path, title, modified);
                if kind == FileEventKind::Created {
                    stats.files_created = stats.files_created + 1;
                    SyncEvent::FileCreated { file_path: path.to_string() }
                } else {
                    stats.files_updated = stats.files_updated + 1;
                    SyncEvent::FileUpdated { file_path: path.to_string() }
                }
            },
            Err(e) => SyncEvent::Error { file_path: path.to_string(), error: e.to_string() },
        }
    }
}

/// The paths of `FileDeleted` events, in order (other events count as nothing).
pub open spec fn deleted_paths(v: Seq<SyncEvent>) -> Seq<Seq<char>>
    decreases v.len(),
{
    if v.len() == 0 {
        Seq::empty()
    } else {
        deleted_paths(v.drop_last()) + match v.last() {
            SyncEvent::FileDeleted { file_path } => seq![file_path@],
            _ => Seq::empty(),
        }
    }
}

pub proof fn lemma_stale_len(recorded: Seq<Seq<char>>, current: Seq<Seq<char>>)
    ensures
        stale(recorded, current).len() <= recorded.len(),
    decreases recorded.len(),
{
    if recorded.len() > 0 {
        lemma_stale_len(recorded.drop_last(), current);
    }
}

/// A file found on disk, with what the sync needs of it; the content may be left empty for a
/// file that is unchanged.
#[derive(Debug)]
pub struct ScannedFile {
    pub path: String,
    pub title: String,
    pub modified: u128,
    pub content: String,
}

/// Every file is recorded with a modification time no earlier than its own.
pub open spec fn all_unchanged(reg: SyncRegistry, files: Seq<ScannedFile>) -> bool {
    forall|i: int| 0 <= i < files.len() ==> (#[trigger] reg.lookup(files[i].path@) matches Some(e) && files[i].modified <= e.1)
}

/// Every recorded file is among the files.
pub open spec fn all_present(reg: SyncRegistry, files: Seq<ScannedFile>) -> bool {
    forall|k: int| 0 <= k < reg.paths().len() ==> files.map_values(|f: ScannedFile| f.path@).contains(#[trigger] reg.paths()[k])
}

/// A file that is recorded with a modification time no earlier than it has now is unchanged;
/// and when every recorded path is still present, none is stale. So a sync of a directory
/// where nothing changed creates, updates and deletes nothing.
pub proof fn lemma_unchanged_directory(
    reg: SyncRegistry,
    current: Seq<Seq<char>>,
    mtimes: Seq<u128>,
)
    requires
        mtimes.len() == current.len(),
        forall|i: int| 0 <= i < current.len() ==> ((#[trigger] reg.lookup(current[i])) matches Some(e) && mtimes[i] <= e.1),
        forall|k: int| 0 <= k < reg.paths().len() ==> current.contains(#[trigger] reg.paths()[k]),
    ensures
        forall|i: int| 0 <= i < current.len() ==> change_of(#[trigger] reg.lookup(current[i]), mtimes[i]) == FileChange::Unchanged,
        stale(reg.paths(), current).len() == 0,
{
    lemma_stale_empty(reg.paths(), current);
}

pub proof fn lemma_stale_empty(recorded: Seq<Seq<char>>, current: Seq<Seq<char>>)
    requires
        forall|k: int| 0 <= k < recorded.len() ==> current.contains(#[trigger] recorded[k]),
    ensures
        stale(recorded, current).len() == 0,
    decreases recorded.len(),
{
    if recorded.len() > 0 {
        let r = recorded.drop_last();
        assert forall|k: int| 0 <= k < r.len() implies current.contains(#[trigger] r[k]) by {
            assert(r[k] == recorded[k]);
        }
        lemma_stale_empty(r, current);
        assert(current.contains(recorded[recorded.len() - 1]));
    }
}

} // verus!
