//! Decisions of incremental indexing: which files on disk are new, modified or unchanged
//! against the stored content hashes, which stored files have gone, which files a resumed
//! rebuild still has to index, and when a batch of changes is due for a commit.
use vstd::prelude::*;

use crate::records::{DeltaScanResult, FileRecord};

verus! {

/// Batch size used when none is given.
pub const DEFAULT_BATCH_SIZE: usize = 50usize;

/// The batch size to work with: the given one, or the default for zero.
pub fn effective_batch_size(batch_size: usize) -> (r: usize)
    ensures
        r == if batch_size == 0 { DEFAULT_BATCH_SIZE } else { batch_size },
{
    if batch_size == 0 {
        DEFAULT_BATCH_SIZE
    } else {
        batch_size
    }
}

/// The hash stored for `path` by the last of the first `n` records with that path.
pub open spec fn last_hash(stored: Seq<FileRecord>, path: Seq<char>, n: nat) -> Option<Seq<char>>
    decreases n,
{
    if n == 0 {
        None
    } else if stored[n - 1].path@ == path {
        Some(stored[n - 1].content_hash@)
    } else {
        last_hash(stored, path, (n - 1) as nat)
    }
}

/// The hash stored for `path`, if any (a later record of the same path wins).
pub open spec fn stored_hash(stored: Seq<FileRecord>, path: Seq<char>) -> Option<Seq<char>> {
    last_hash(stored, path, stored.len())
}

/// How a file on disk stands against the stored hashes.
#[derive(Debug, Clone, Copy, PartialEq, Eq, Structural)]
pub enum FileChange {
    /// No stored record.
    New,
    /// Stored with another hash.
    Modified,
    /// Stored with the same hash.
    Unchanged,
}

/// How the file at `path` with content hash `hash` stands.
pub open spec fn change_of(stored: Seq<FileRecord>, path: Seq<char>, hash: Seq<char>) -> FileChange {
    match stored_hash(stored, path) {
        None => FileChange::New,
        Some(h) => if h == hash {
            FileChange::Unchanged
        } else {
            FileChange::Modified
        },
    }
}

/// The paths among the first `n` files on disk (`(path, hash)`) that stand as `c`, in order.
pub open spec fn paths_with(stored: Seq<FileRecord>, disk: Seq<(String, String)>, c: FileChange, n: nat) -> Seq<Seq<char>>
    decreases n,
{
    if n == 0 {
        Seq::empty()
    } else {
        let before = paths_with(stored, disk, c, (n - 1) as nat);
        if change_of(stored, disk[n - 1].0@, disk[n - 1].1@) == c {
            before.push(disk[n - 1].0@)
        } else {
            before
        }
    }
}

/// `path` is one of the files on disk.
pub open spec fn on_disk(disk: Seq<(String, String)>, path: Seq<char>) -> bool {
    exists|i: int| 0 <= i < disk.len() && #[trigger] disk[i].0@ == path
}

/// The distinct stored paths among the first `n` records that are not on disk, in order of
/// first appearance.
pub open spec fn gone_paths(stored: Seq<FileRecord>, disk: Seq<(String, String)>, n: nat) -> Seq<Seq<char>>
    decreases n,
{
    if n == 0 {
        Seq::empty()
    } else {
        let before = gone_paths(stored, disk, (n - 1) as nat);
        let p = stored[n - 1].path@;
        if on_disk(disk, p) || before.contains(p) {
            before
        } else {
            before.push(p)
        }
    }
}

/// The paths of a list of strings.
pub open spec fn string_views(v: Seq<String>) -> Seq<Seq<char>> {
    v.map_values(|s: String| s@)
}

/// How a file stands against the stored hashes.
pub fn classify_change(stored: &[FileRecord], path: &str, hash: &str) -> (r: FileChange)
    ensures
        r == change_of(stored@, path@, hash@),
{
    let mut i: usize = stored.len();
    while i > 0
        invariant
            i <= stored.len(),
            stored_hash(stored@, path@) == last_hash(stored@, path@, i as nat),
        decreases i,
    {
        if crate::text::str_eq(stored[i - 1].path.as_str(), path) {
            if crate::text::str_eq(stored[i - 1].content_hash.as_str(), hash) {
                return FileChange::Unchanged;
            } else {
                return FileChange::Modified;
            }
        }
        i -= 1;
    }
    FileChange::New
}

/// Whether a path is among the files on disk.
fn is_on_disk(disk: &[(String, String)], path: &str) -> (r: bool)
    ensures
        r == on_disk(disk@, path@),
{
    let mut i: usize = 0;
    while i < disk.len()
        invariant
            i <= disk.len(),
            forall|j: int| 0 <= j < i ==> disk@[j].0@ != path@,
        decreases disk.len() - i,
    {
        if crate::text::str_eq(disk[i].0.as_str(), path) {
            return true;
        }
        i += 1;
    }
    false
}

/// The delta between the stored files and the files on disk (`(path, content hash)`, in
/// walk order): the new and the modified files in disk order, and the stored files no longer
/// on disk, each once, in stored order.
pub fn plan_delta_scan(stored: &[FileRecord], disk: &[(String, String)]) -> (r: DeltaScanResult)
    ensures
        string_views(r.new_files@) == paths_with(stored@, disk@, FileChange::New, disk@.len()),
        string_views(r.modified_files@) == paths_with(stored@, disk@, FileChange::Modified, disk@.len()),
        string_views(r.deleted_files@) == gone_paths(stored@, disk@, stored@.len()),
{
    let mut new_files: Vec<String> = Vec::new();
    let mut modified_files: Vec<String> = Vec::new();
    let mut i: usize = 0;
    while i < disk.len()
        invariant
            i <= disk.len(),
            string_views(new_files@) == paths_with(stored@, disk@, FileChange::New, i as nat),
            string_views(modified_files@) == paths_with(stored@, disk@, FileChange::Modified, i as nat),
        decreases disk.len() - i,
    {
        let c = classify_change(stored, disk[i].0.as_str(), disk[i].1.as_str());
        match c {
            FileChange::New => {
                new_files.push(disk[i].0.clone());
            },
            FileChange::Modified => {
                modified_files.push(disk[i].0.clone());
            },
            FileChange::Unchanged => {},
        }
        i += 1;
        assert(string_views(new_files@) =~= paths_with(stored@, disk@, FileChange::New, i as nat));
        assert(string_views(modified_files@) =~= paths_with(stored@, disk@, FileChange::Modified, i as nat));
    }
    let mut deleted_files: Vec<String> = Vec::new();
    let mut k: usize = 0;
    while k < stored.len()
        invariant
            k <= stored.len(),
            string_views(deleted_files@) == gone_paths(stored@, disk@, k as nat),
        decreases stored.len() - k,
    {
        let p = stored[k].path.as_str();
        let mut listed = false;
        let mut j: usize = 0;
        while j < deleted_files.len()
            invariant
                j <= deleted_files.len(),
                listed <==> exists|m: int| 0 <= m < j && deleted_files@[m]@ == p@,
            decreases deleted_files.len() - j,
        {
            if crate::text::str_eq(deleted_files[j].as_str(), p) {
                listed = true;
            }
            j += 1;
        }
        let ghost before = string_views(deleted_files@);
        proof {
            assert(listed <==> before.contains(p@)) by {
                if listed {
                    let m = choose|m: int| 0 <= m < deleted_files.len() && deleted_files@[m]@ == p@;
                    assert(before[m] == p@);
                }
                if before.contains(p@) {
                    let m = choose|m: int| 0 <= m < before.len() && before[m] == p@;
                    assert(deleted_files@[m]@ == p@);
                }
            }
        }
        if !listed && !is_on_disk(disk, p) {
            deleted_files.push(stored[k].path.clone());
        }
        k += 1;
        assert(string_views(deleted_files@) =~= gone_paths(stored@, disk@, k as nat));
    }
    DeltaScanResult { new_files, modified_files, deleted_files }
}

/// The positions, in order, of the first `n` files on disk that a resumed rebuild still has
/// to index: all but those stored with the same hash.
pub open spec fn to_reindex(stored: Seq<FileRecord>, disk: Seq<(String, String)>, n: nat) -> Seq<usize>
    decreases n,
{
    if n == 0 {
        Seq::empty()
    } else {
        let before = to_reindex(stored, disk, (n - 1) as nat);
        if change_of(stored, disk[n - 1].0@, disk[n - 1].1@) == FileChange::Unchanged {
            before
        } else {
            before.push((n - 1) as usize)
        }
    }
}

/// The files a rebuild indexes, by position in `disk`, and how many count as indexed
/// already: on a resume, the files stored with the same hash are skipped and counted; a
/// fresh rebuild indexes every file and counts none.
pub fn plan_reindex(stored: &[FileRecord], disk: &[(String, String)], resume: bool) -> (r: (Vec<usize>, usize))
    ensures
        resume ==> r.0@ == to_reindex(stored@, disk@, disk@.len()) && r.1 + r.0.len() == disk.len(),
        !resume ==> r.0@ == Seq::new(disk@.len(), |i: int| i as usize) && r.1 == 0,
{
    let mut todo: Vec<usize> = Vec::new();
    let mut done: usize = 0;
    let mut i: usize = 0;
    while i < disk.len()
        invariant
            i <= disk.len(),
            resume ==> todo@ == to_reindex(stored@, disk@, i as nat) && done + todo.len() == i,
            !resume ==> todo@ == Seq::new(i as nat, |j: int| j as usize) && done == 0,
        decreases disk.len() - i,
    {
        if resume && classify_change(stored, disk[i].0.as_str(), disk[i].1.as_str()) == FileChange::Unchanged {
            done += 1;
        } else {
            todo.push(i);
        }
        i += 1;
        proof {
            if !resume {
                assert(todo@ =~= Seq::new(i as nat, |j: int| j as usize));
            }
        }
    }
    (todo, done)
}

/// Counts changes and says when a batch is full and due for a commit.
pub struct CommitBatcher {
    /// Changes since the last commit.
    pub pending: usize,
    /// Changes per commit.
    pub batch_size: usize,
}

impl CommitBatcher {
    /// A batcher for the given batch size (the default for zero).
    pub fn new(batch_size: usize) -> (r: Self)
        ensures
            r.pending == 0,
            r.batch_size == if batch_size == 0 { DEFAULT_BATCH_SIZE } else { batch_size },
    {
        CommitBatcher { pending: 0, batch_size: effective_batch_size(batch_size) }
    }

    /// Records one change; `true` when the batch is now full, which starts a new one.
    pub fn record(&mut self) -> (commit: bool)
        requires
            old(self).pending < usize::MAX,
        ensures
            final(self).batch_size == old(self).batch_size,
            commit == (old(self).pending + 1 >= old(self).batch_size),
            final(self).pending == if commit { 0 } else { old(self).pending + 1 },
    {
        self.pending = self.pending + 1;
        if self.pending >= self.batch_size {
            self.pending = 0;
            true
        } else {
            false
        }
    }
}

} // verus!
