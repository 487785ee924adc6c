use ctxvault::indexing::{classify_change, effective_batch_size, plan_delta_scan, plan_reindex, CommitBatcher, FileChange};
use ctxvault::records::FileRecord;

fn rec(path: &str, hash: &str) -> FileRecord {
    FileRecord {
        path: path.to_string(),
        content_hash: hash.to_string(),
        modified_at: 0,
        template: None,
        title: None,
        indexed_at: 0,
    }
}

fn disk(files: &[(&str, &str)]) -> Vec<(String, String)> {
    files.iter().map(|(p, h)| (p.to_string(), h.to_string())).collect()
}

#[test]
fn files_are_new_modified_or_unchanged() {
    let stored = vec![rec("a.md", "h1"), rec("b.md", "h2"), rec("b.md", "h3")];
    assert_eq!(classify_change(&stored, "a.md", "h1"), FileChange::Unchanged);
    assert_eq!(classify_change(&stored, "a.md", "zz"), FileChange::Modified);
    assert_eq!(classify_change(&stored, "c.md", "h1"), FileChange::New);
    // The later record of a path wins.
    assert_eq!(classify_change(&stored, "b.md", "h3"), FileChange::Unchanged);
    assert_eq!(classify_change(&stored, "b.md", "h2"), FileChange::Modified);
}

#[test]
fn delta_scan_lists_new_modified_and_deleted_files() {
    let stored = vec![rec("keep.md", "k"), rec("edit.md", "old"), rec("gone.md", "g"), rec("gone.md", "g2")];
    let on_disk = disk(&[("fresh.md", "f"), ("edit.md", "new"), ("keep.md", "k"), ("also.md", "a")]);
    let delta = plan_delta_scan(&stored, &on_disk);
    assert_eq!(delta.new_files, vec!["fresh.md", "also.md"]);
    assert_eq!(delta.modified_files, vec!["edit.md"]);
    assert_eq!(delta.deleted_files, vec!["gone.md"]);
}

#[test]
fn resumed_rebuild_skips_unchanged_files() {
    let stored = vec![rec("a.md", "1"), rec("b.md", "2")];
    let on_disk = disk(&[("a.md", "1"), ("b.md", "changed"), ("c.md", "3")]);
    assert_eq!(plan_reindex(&stored, &on_disk, true), (vec![1, 2], 1));
    assert_eq!(plan_reindex(&stored, &on_disk, false), (vec![0, 1, 2], 0));
}

#[test]
fn batches_commit_when_full() {
    assert_eq!(effective_batch_size(0), 50);
    assert_eq!(effective_batch_size(7), 7);
    let mut b = CommitBatcher::new(3);
    assert_eq!([b.record(), b.record(), b.record(), b.record()], [false, false, true, false]);
    assert_eq!(b.pending, 1);
    let mut d = CommitBatcher::new(0);
    assert_eq!(d.batch_size, 50);
    assert!(!d.record());
}
