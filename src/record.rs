use std::path::PathBuf;
use vstd::prelude::*;

verus! {

/// `PathBuf` is carried through the library unread.
#[verifier::external_type_specification]
#[verifier::external_body]
pub struct ExPathBuf(PathBuf);

/// What kind of filesystem object a path names, as its own (not followed)
/// metadata says.
#[derive(Clone, Copy, Debug, PartialEq, Eq, Structural)]
pub enum FileKind {
    File,
    Dir,
    Symlink,
    Other,
}

/// The part of a path's metadata that the engine reads.
#[derive(Clone, Copy, Debug, PartialEq, Eq, Structural)]
pub struct FileMeta {
    pub kind: FileKind,
    pub size: u64,
    pub dev: u64,
    pub ino: u64,
}

impl FileMeta {
    /// Two records with equal device and inode are one physical file.
    pub open spec fn same_inode(self, other: FileMeta) -> bool {
        self.dev == other.dev && self.ino == other.ino
    }
}

/// The metadata snapshots of a sequence of records.
pub open spec fn metas_of(records: Seq<PathWithMetadata>) -> Seq<FileMeta> {
    records.map_values(|r: PathWithMetadata| r.md)
}

/// Options of one run.
#[derive(Clone, Copy, Debug)]
pub struct Config {
    /// Simulate every change to the filesystem.
    pub dry_run: bool,
    /// Files smaller than this are never candidates.
    pub min_size: u64,
    /// Below zero nothing but fatal errors is reported; at one and above
    /// each size bucket is reported.
    pub verbosity: i8,
    /// Print path pairs in full rather than in brace notation.
    pub no_brace_output: bool,
}

/// A resolved path with a snapshot of its metadata.
///
/// The snapshot is taken when the record is made and is replaced, through
/// `reset_md`, after the file at the path has been relinked.
pub struct PathWithMetadata {
    pub path: PathBuf,
    pub md: FileMeta,
}

impl PathWithMetadata {
    pub fn new(path: PathBuf, md: FileMeta) -> (r: Self)
        ensures
            r.path == path,
            r.md == md,
    {
        PathWithMetadata { path, md }
    }

    pub fn md(&self) -> (r: FileMeta)
        ensures
            r == self.md,
    {
        self.md
    }

    /// Replaces the snapshot with one read again from the filesystem.
    pub fn reset_md(&mut self, md: FileMeta)
        ensures
            final(self).path == old(self).path,
            final(self).md == md,
    {
        self.md = md;
    }
}

} // verus!
