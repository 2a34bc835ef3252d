use hardlink_dups::{run_model, FileKind, FileMeta, PathWithMetadata};
use std::path::PathBuf;

fn file(path: &str, size: u64, ino: u64) -> PathWithMetadata {
    PathWithMetadata::new(PathBuf::from(path), FileMeta { kind: FileKind::File, size, dev: 3, ino })
}

#[test]
fn model_two_identical_files_merge() {
    let out = run_model(vec![file("/t/dirA/x", 100, 11), file("/t/dirB/y", 100, 12)], &vec![7, 7]);
    assert_eq!(out[0].md.ino, out[1].md.ino);
    let kept = [out[0].md.ino == 11, out[1].md.ino == 12];
    assert_eq!(kept.iter().filter(|k| **k).count(), 1);
}

#[test]
fn model_inodes_follow_contents() {
    let records = vec![file("/a", 3, 30), file("/b", 3, 10), file("/c", 3, 20), file("/d", 3, 20)];
    let contents = vec![1, 1, 2, 2];
    let out = run_model(records, &contents);
    assert_eq!(out[0].md.ino, out[1].md.ino);
    assert_eq!(out[2].md.ino, out[3].md.ino);
    assert_ne!(out[0].md.ino, out[2].md.ino);
    let paths: Vec<PathBuf> = out.iter().map(|r| r.path.clone()).collect();
    assert_eq!(paths, vec![PathBuf::from("/a"), PathBuf::from("/b"), PathBuf::from("/c"), PathBuf::from("/d")]);
}

#[test]
fn model_second_run_changes_nothing() {
    let records = vec![file("/a", 5, 1), file("/b", 5, 2), file("/c", 5, 3)];
    let contents = vec![4, 4, 9];
    let first = run_model(records, &contents);
    let inos: Vec<u64> = first.iter().map(|r| r.md.ino).collect();
    let second = run_model(first, &contents);
    assert_eq!(second.iter().map(|r| r.md.ino).collect::<Vec<u64>>(), inos);
}
