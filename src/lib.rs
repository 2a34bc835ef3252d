//! Finds duplicate regular files under sets of targets and merges each group
//! of duplicates onto one inode.
//!
//! The library holds the decisions: which files are candidates, how they are
//! bucketed by size and clustered by inode, which pairs of clusters are
//! compared and which files are relinked. The caller performs the filesystem
//! work that each decision asks for and reports back what happened.
pub mod cluster;
pub mod compare;
pub mod device;
pub mod merge;
pub mod model;
pub mod pair;
pub mod record;
pub mod registry;
pub mod targets;
pub mod transaction;

pub use cluster::get2mut;
pub use compare::{cmp_read, ReadStep};
pub use device::{check_all_same_device, DeviceGroup};
pub use merge::{Merger, Outcome, Step};
pub use pair::{common_prefix, common_suffix, format_pair};
pub use record::{Config, FileKind, FileMeta, PathWithMetadata};
pub use registry::{register, SizeBucket, SizeRegistry};
pub use targets::{obtain_run_paths, obtain_run_targets, read_lines, split_vec};
pub use transaction::{next_link_step, LinkEnd, LinkEvent, LinkStep};
pub use model::run_model;
