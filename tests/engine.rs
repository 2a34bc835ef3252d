use hardlink_dups::{
    check_all_same_device, register, Config, FileKind, FileMeta, Merger, Outcome,
    PathWithMetadata, SizeRegistry, Step,
};
use std::path::PathBuf;

fn file(path: &str, size: u64, dev: u64, ino: u64) -> PathWithMetadata {
    PathWithMetadata::new(PathBuf::from(path), FileMeta { kind: FileKind::File, size, dev, ino })
}

/// Drives the engine over one bucket, answering comparisons from `contents`
/// and making every link succeed; returns the steps taken and the records.
fn drive(records: Vec<PathWithMetadata>, contents: &[&str], dry_run: bool) -> (Vec<Step>, Vec<PathWithMetadata>) {
    let mut m = Merger::new(records, dry_run);
    let mut steps = Vec::new();
    loop {
        let step = m.action();
        steps.push(step);
        let outcome = match step {
            Step::Done => break,
            Step::Compare { keep, replace } => {
                if contents[keep] == contents[replace] { Outcome::Same } else { Outcome::Differ }
            }
            Step::Link { keep, replace } => {
                let k = m.record(keep).md;
                let mut md = m.record(replace).md;
                md.dev = k.dev;
                md.ino = k.ino;
                Outcome::Linked(md)
            }
            Step::Pretend { .. } => Outcome::Pretended,
        };
        m.advance(outcome);
    }
    (steps, m.into_records())
}

fn links(steps: &[Step]) -> usize {
    steps.iter().filter(|s| matches!(s, Step::Link { .. })).count()
}

#[test]
fn two_identical_files_share_one_inode() {
    let records = vec![file("/t/dirA/x", 100, 7, 11), file("/t/dirB/y", 100, 7, 12)];
    let (steps, out) = drive(records, &["same", "same"], false);
    assert_eq!(
        steps,
        vec![
            Step::Compare { keep: 0, replace: 1 },
            Step::Link { keep: 0, replace: 1 },
            Step::Done
        ]
    );
    assert_eq!(out[0].md.ino, out[1].md.ino);
    assert_eq!(out[0].md.ino, 11);
    assert_eq!(out[1].path, PathBuf::from("/t/dirB/y"));
}

#[test]
fn three_files_two_identical() {
    let records = vec![file("/a", 3, 1, 30), file("/b", 3, 1, 10), file("/c", 3, 1, 20)];
    let (steps, out) = drive(records, &["xyz", "xyz", "abc"], false);
    assert_eq!(links(&steps), 1);
    assert_eq!(out[0].md.ino, out[1].md.ino);
    assert_ne!(out[2].md.ino, out[0].md.ino);
    assert_eq!(out[2].md.ino, 20);
    assert_eq!(steps.iter().filter(|s| matches!(s, Step::Compare { .. })).count(), 2);
}

#[test]
fn different_contents_keep_distinct_inodes() {
    let records = vec![file("/a", 5, 1, 1), file("/b", 5, 1, 2), file("/c", 5, 1, 3)];
    let (steps, out) = drive(records, &["1", "2", "3"], false);
    assert_eq!(links(&steps), 0);
    assert_eq!(steps.len(), 4);
    let inos: Vec<u64> = out.iter().map(|r| r.md.ino).collect();
    assert_eq!(inos, vec![1, 2, 3]);
}

#[test]
fn existing_hardlinks_need_no_comparison() {
    let records = vec![file("/a", 9, 1, 4), file("/b", 9, 1, 4), file("/c", 9, 1, 4)];
    let (steps, _) = drive(records, &["q", "q", "q"], false);
    assert_eq!(steps, vec![Step::Done]);
}

#[test]
fn largest_cluster_keeps_its_inode() {
    let records = vec![file("/a", 9, 1, 8), file("/b", 9, 1, 2), file("/c", 9, 1, 2)];
    let (steps, out) = drive(records, &["q", "q", "q"], false);
    assert_eq!(steps[0], Step::Compare { keep: 1, replace: 0 });
    assert_eq!(links(&steps), 1);
    assert!(out.iter().all(|r| r.md.ino == 2));
}

#[test]
fn second_run_links_nothing() {
    let records = vec![file("/a", 3, 1, 30), file("/b", 3, 1, 10), file("/c", 3, 1, 20)];
    let contents = ["xyz", "xyz", "abc"];
    let (first, out) = drive(records, &contents, false);
    assert_eq!(links(&first), 1);
    let (second, _) = drive(out, &contents, false);
    assert_eq!(links(&second), 0);
}

#[test]
fn dry_run_only_pretends() {
    let records = vec![file("/a", 4, 1, 1), file("/b", 4, 1, 2)];
    let (steps, out) = drive(records, &["z", "z"], true);
    assert_eq!(links(&steps), 0);
    assert_eq!(steps[1], Step::Pretend { keep: 0, replace: 1 });
    assert_eq!(out[1].md.ino, 2);
}

#[test]
fn failed_link_is_skipped() {
    let records = vec![file("/a", 4, 1, 1), file("/b", 4, 1, 2), file("/c", 4, 1, 3)];
    let mut m = Merger::new(records, false);
    assert_eq!(m.action(), Step::Compare { keep: 0, replace: 1 });
    m.advance(Outcome::Same);
    assert_eq!(m.action(), Step::Link { keep: 0, replace: 1 });
    m.advance(Outcome::Failed);
    assert_eq!(m.action(), Step::Compare { keep: 0, replace: 2 });
    m.advance(Outcome::Differ);
    assert!(m.is_done());
    assert_eq!(m.record(1).md.ino, 2);
}

#[test]
fn small_files_are_never_registered() {
    let cfg = Config { dry_run: false, min_size: 10, verbosity: 0, no_brace_output: false };
    let mut found = Vec::new();
    assert!(register(file("/a", 5, 1, 1), &mut found, &cfg).is_none());
    assert!(register(file("/b", 5, 1, 2), &mut found, &cfg).is_none());
    assert!(found.is_empty());
    let reg = SizeRegistry::from_records(vec![file("/a", 5, 1, 1), file("/b", 5, 1, 2)], cfg.min_size).ok().unwrap();
    assert!(reg.into_candidates().is_empty());
}

#[test]
fn walk_decisions() {
    let cfg = Config { dry_run: false, min_size: 1, verbosity: 0, no_brace_output: false };
    let mut found = Vec::new();
    assert!(register(file("/a", 5, 1, 1), &mut found, &cfg).is_none());
    assert!(register(file("/e", 0, 1, 5), &mut found, &cfg).is_none());
    let dir = PathWithMetadata::new(PathBuf::from("/d"), FileMeta { kind: FileKind::Dir, size: 5, dev: 1, ino: 4 });
    let back = register(dir, &mut found, &cfg).unwrap();
    assert_eq!(back.path, PathBuf::from("/d"));
    let link = PathWithMetadata::new(PathBuf::from("/l"), FileMeta { kind: FileKind::Symlink, size: 5, dev: 1, ino: 6 });
    assert!(register(link, &mut found, &cfg).is_none());
    assert_eq!(found.len(), 1);
    assert_eq!(found[0].path, PathBuf::from("/a"));
}

#[test]
fn registry_keeps_only_shared_sizes() {
    let mut reg = SizeRegistry::new(1);
    reg.add(file("/a", 5, 1, 1));
    reg.add(file("/b", 6, 1, 2));
    reg.add(file("/c", 5, 1, 3));
    reg.add(file("/e", 0, 1, 5));
    let buckets = reg.into_candidates();
    assert_eq!(buckets.len(), 1);
    assert_eq!(buckets[0].size, 5);
    let paths: Vec<&PathBuf> = buckets[0].files.iter().map(|r| &r.path).collect();
    assert_eq!(paths, vec![&PathBuf::from("/a"), &PathBuf::from("/c")]);
}

#[test]
fn cross_device_records_build_no_buckets() {
    let records = vec![file("/a", 5, 1, 1), file("/b", 5, 2, 2), file("/c", 5, 1, 3)];
    match SizeRegistry::from_records(records, 1) {
        Ok(_) => panic!("a set over two devices must be refused"),
        Err((groups, back)) => {
            assert_eq!(groups.len(), 2);
            assert_eq!(back.len(), 3);
            assert_eq!(back[1].path, PathBuf::from("/b"));
        }
    }
}

#[test]
fn one_device_records_are_bucketed() {
    let records = vec![file("/a", 5, 1, 1), file("/b", 7, 1, 2), file("/c", 5, 1, 3)];
    let reg = SizeRegistry::from_records(records, 1).ok().unwrap();
    let buckets = reg.into_candidates();
    assert_eq!(buckets.len(), 1);
    assert_eq!(buckets[0].files.len(), 2);
}

#[test]
fn cross_device_set_is_refused() {
    let set = vec![file("/a", 5, 1, 1), file("/b", 5, 2, 1), file("/c", 5, 1, 2)];
    let groups = check_all_same_device(&set).unwrap_err();
    assert_eq!(groups.len(), 2);
    let on1 = groups.iter().find(|g| g.dev == 1).unwrap();
    assert_eq!(on1.count, 2);
    assert_eq!(on1.example, 0);
    let on2 = groups.iter().find(|g| g.dev == 2).unwrap();
    assert_eq!((on2.count, on2.example), (1, 1));
}

#[test]
fn one_device_set_is_accepted() {
    let set = vec![file("/a", 5, 3, 1), file("/b", 7, 3, 2)];
    assert_eq!(check_all_same_device(&set), Ok(()));
    assert_eq!(check_all_same_device(&[]), Ok(()));
}


#[test]
fn absorbed_cluster_is_replaced_by_the_last() {
    let records = vec![file("/a", 2, 1, 1), file("/b", 2, 1, 2), file("/c", 2, 1, 3), file("/d", 2, 1, 4)];
    let mut m = Merger::new(records, false);
    assert_eq!(m.action(), Step::Compare { keep: 0, replace: 1 });
    m.advance(Outcome::Same);
    assert_eq!(m.action(), Step::Link { keep: 0, replace: 1 });
    let mut md = m.record(1).md;
    md.ino = 1;
    m.advance(Outcome::Linked(md));
    assert_eq!(m.action(), Step::Compare { keep: 0, replace: 3 });
    m.advance(Outcome::Differ);
    assert_eq!(m.action(), Step::Compare { keep: 0, replace: 2 });
    m.advance(Outcome::Differ);
    assert_eq!(m.action(), Step::Compare { keep: 3, replace: 2 });
    m.advance(Outcome::Differ);
    assert!(m.is_done());
}
