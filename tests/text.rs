use hardlink_dups::{
    cmp_read, common_prefix, common_suffix, format_pair, get2mut, obtain_run_paths, Config,
    FileKind, FileMeta, PathWithMetadata, ReadStep,
};
use std::path::PathBuf;

fn cfg(no_brace_output: bool) -> Config {
    Config { dry_run: false, min_size: 1, verbosity: 0, no_brace_output }
}

#[test]
fn common_prefix_and_suffix() {
    assert_eq!(common_prefix("/home/user/dir/file", "/home/user/backup/file"), "/home/user/");
    assert_eq!(common_suffix("/home/user/dir/file", "/home/user/backup/file"), "/file");
    assert_eq!(common_prefix("abc", "xyz"), "");
    assert_eq!(common_suffix("abc", "abc"), "abc");
    assert_eq!(common_prefix("äöx", "äöy"), "äö");
}

#[test]
fn format_pair_brace_notation() {
    let s = format_pair("/home/user/dir/file", "/home/user/backup/file", &cfg(false));
    assert_eq!(s, "/home/user/{dir,backup}/file");
}

#[test]
fn format_pair_prefix_only() {
    let s = format_pair("/srv/a1", "/srv/b2", &cfg(false));
    assert_eq!(s, "/srv/{a1,b2}");
}

#[test]
fn format_pair_suffix_only() {
    let s = format_pair("x/file", "y/file", &cfg(false));
    assert_eq!(s, "{x,y}/file");
}

#[test]
fn format_pair_nothing_shared() {
    let s = format_pair("ab", "cd", &cfg(false));
    assert_eq!(s, "ab <-> cd");
}

#[test]
fn format_pair_without_braces_quotes() {
    let s = format_pair("/a b/x", "/c/y", &cfg(true));
    assert_eq!(s, "'/a b/x'  /c/y");
}

#[test]
fn cmp_read_rounds() {
    assert_eq!(cmp_read(b"abc", b"abc"), ReadStep::Continue);
    assert_eq!(cmp_read(b"abc", b"abd"), ReadStep::Different);
    assert_eq!(cmp_read(b"abc", b"ab"), ReadStep::Different);
    assert_eq!(cmp_read(b"", b""), ReadStep::Equal);
}

#[test]
fn get2mut_gives_both() {
    let mut v = vec![1, 2, 3, 4];
    let (a, b) = get2mut(&mut v, 1, 3);
    std::mem::swap(a, b);
    assert_eq!(v, vec![1, 4, 3, 2]);
}

#[test]
fn obtain_run_paths_drops_symlinks_and_empty_sets() {
    let rec = |p: &str, kind: FileKind| {
        PathWithMetadata::new(PathBuf::from(p), FileMeta { kind, size: 1, dev: 1, ino: 1 })
    };
    let sets = vec![
        vec![rec("/a", FileKind::File), rec("/l", FileKind::Symlink), rec("/d", FileKind::Dir)],
        vec![rec("/m", FileKind::Symlink)],
        vec![rec("/b", FileKind::File)],
    ];
    let out = obtain_run_paths(sets);
    let paths: Vec<Vec<PathBuf>> = out.iter().map(|s| s.iter().map(|r| r.path.clone()).collect()).collect();
    assert_eq!(
        paths,
        vec![vec![PathBuf::from("/a"), PathBuf::from("/d")], vec![PathBuf::from("/b")]]
    );
}
