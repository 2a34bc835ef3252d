use crate::device::{check_all_same_device, device_report, one_device, DeviceGroup};
use crate::record::{Config, FileKind, PathWithMetadata};
use std::collections::HashMap;
use vstd::prelude::*;

verus! {

broadcast use vstd::std_specs::hash::group_hash_axioms;

/// The records of one file size.
pub struct SizeBucket {
    pub size: u64,
    pub files: Vec<PathWithMetadata>,
}

/// Eligible records grouped by exact file size.
///
/// Every record held is a regular file of at least `min_size` bytes, and
/// sits in the bucket of its own size.
pub struct SizeRegistry {
    min_size: u64,
    slots: HashMap<u64, usize>,
    buckets: Vec<SizeBucket>,
}

/// A record that the walk may register: a regular file of at least
/// `min_size` bytes.
pub open spec fn eligible(r: PathWithMetadata, min_size: u64) -> bool {
    r.md.kind == FileKind::File && r.md.size >= min_size
}

/// The buckets `m` with `r` added, when it is eligible.
pub open spec fn add_to(m: Map<u64, Seq<PathWithMetadata>>, r: PathWithMetadata, min_size: u64) -> Map<
    u64,
    Seq<PathWithMetadata>,
> {
    if eligible(r, min_size) {
        m.insert(
            r.md.size,
            if m.contains_key(r.md.size) {
                m[r.md.size].push(r)
            } else {
                seq![r]
            },
        )
    } else {
        m
    }
}

/// The eligible records of `records`, by size, each bucket in the order of
/// `records`.
pub open spec fn buckets_of(records: Seq<PathWithMetadata>, min_size: u64) -> Map<u64, Seq<PathWithMetadata>>
    decreases records.len(),
{
    if records.len() == 0 {
        Map::empty()
    } else {
        add_to(buckets_of(records.drop_last(), min_size), records.last(), min_size)
    }
}

/// Takes in one record met by the walk. An eligible file is collected in
/// `found`; a directory is handed back for the caller to expand; anything
/// else (a symlink, a special file, a file below the minimum size) is
/// dropped.
pub fn register(pwmd: PathWithMetadata, found: &mut Vec<PathWithMetadata>, cfg: &Config) -> (r: Option<PathWithMetadata>)
    ensures
        r == (if pwmd.md.kind == FileKind::Dir {
            Some(pwmd)
        } else {
            None::<PathWithMetadata>
        }),
        final(found)@ == (if eligible(pwmd, cfg.min_size) {
            old(found)@.push(pwmd)
        } else {
            old(found)@
        }),
{
    match pwmd.md.kind {
        FileKind::File => {
            if pwmd.md.size >= cfg.min_size {
                found.push(pwmd);
            }
            None
        },
        FileKind::Dir => Some(pwmd),
        _ => None,
    }
}

impl SizeRegistry {
    /// The records held, by size.
    pub closed spec fn view(&self) -> Map<u64, Seq<PathWithMetadata>> {
        Map::new(
            |s: u64| self.slots@.contains_key(s),
            |s: u64| self.buckets@[self.slots@[s] as int].files@,
        )
    }

    pub closed spec fn min_size_spec(&self) -> u64 {
        self.min_size
    }

    pub closed spec fn wf(&self) -> bool {
        &&& forall|s: u64| #[trigger]
            self.slots@.contains_key(s) ==> self.slots@[s] < self.buckets@.len()
                && self.buckets@[self.slots@[s] as int].size == s
        &&& forall|i: int|
            0 <= i < self.buckets@.len() ==> self.slots@.contains_key(#[trigger] self.buckets@[i].size)
                && self.slots@[self.buckets@[i].size] == i
        &&& forall|i: int, k: int|
            #![trigger self.buckets@[i].files@[k]]
            0 <= i < self.buckets@.len() && 0 <= k < self.buckets@[i].files@.len() ==> eligible(
                self.buckets@[i].files@[k],
                self.min_size,
            ) && self.buckets@[i].files@[k].md.size == self.buckets@[i].size
    }

    pub fn new(min_size: u64) -> (r: SizeRegistry)
        ensures
            r.wf(),
            r.view() == Map::<u64, Seq<PathWithMetadata>>::empty(),
            r.min_size_spec() == min_size,
    {
        let r = SizeRegistry { min_size, slots: HashMap::new(), buckets: Vec::new() };
        assert(r.view() =~= Map::<u64, Seq<PathWithMetadata>>::empty());
        r
    }

    /// Adds `pwmd` to the bucket of its size when it is eligible; drops it
    /// otherwise.
    pub fn add(&mut self, pwmd: PathWithMetadata)
        requires
            old(self).wf(),
        ensures
            final(self).wf(),
            final(self).min_size_spec() == old(self).min_size_spec(),
            final(self).view() == add_to(old(self).view(), pwmd, old(self).min_size_spec()),
    {
        if pwmd.md.kind == FileKind::File && pwmd.md.size >= self.min_size {
            self.insert(pwmd);
        }
    }

    /// Buckets the eligible records of one target set by size. A set whose
    /// records lie on more than one device is refused, with the account of
    /// its devices and the records handed back, before any bucket exists:
    /// hardlinks cannot cross devices.
    pub fn from_records(records: Vec<PathWithMetadata>, min_size: u64) -> (r: Result<
        SizeRegistry,
        (Vec<DeviceGroup>, Vec<PathWithMetadata>),
    >)
        ensures
            r is Err <==> !one_device(records@),
            r matches Err((gs, back)) ==> back@ == records@ && gs@.len() >= 2 && device_report(
                records@,
                gs@,
            ),
            r matches Ok(reg) ==> reg.wf() && reg.min_size_spec() == min_size && reg.view()
                == buckets_of(records@, min_size),
    {
        match check_all_same_device(records.as_slice()) {
            Err(groups) => Err((groups, records)),
            Ok(()) => {
                let mut reg = SizeRegistry::new(min_size);
                let ghost all = records@;
                for pwmd in it: records
                    invariant
                        it.seq() == all,
                        reg.wf(),
                        reg.min_size_spec() == min_size,
                        reg.view() == buckets_of(all.subrange(0, it.index() as int), min_size),
                {
                    proof {
                        let done = all.subrange(0, it.index() as int);
                        let more = all.subrange(0, it.index() + 1);
                        assert(more.drop_last() =~= done);
                    }
                    reg.add(pwmd);
                }
                proof {
                    assert(all.subrange(0, all.len() as int) =~= all);
                }
                Ok(reg)
            },
        }
    }

    /// The buckets that hold at least two records: only those can hold
    /// duplicates. Each size appears once.
    pub fn into_candidates(self) -> (r: Vec<SizeBucket>)
        requires
            self.wf(),
        ensures
            forall|k: int|
                0 <= k < r@.len() ==> (#[trigger] r@[k]).files@.len() >= 2 && self.view().contains_key(
                    r@[k].size,
                ) && self.view()[r@[k].size] == r@[k].files@,
            forall|s: u64|
                #[trigger] self.view().contains_key(s) && self.view()[s].len() >= 2 ==> exists|k: int|
                    0 <= k < r@.len() && (#[trigger] r@[k]).size == s,
            forall|k1: int, k2: int|
                0 <= k1 < k2 < r@.len() ==> (#[trigger] r@[k1]).size != (#[trigger] r@[k2]).size,
            forall|k: int, f: int|
                #![trigger r@[k].files@[f]]
                0 <= k < r@.len() && 0 <= f < r@[k].files@.len() ==> eligible(
                    r@[k].files@[f],
                    self.min_size_spec(),
                ) && r@[k].files@[f].md.size == r@[k].size,
    {
        let ghost all = self.buckets@;
        let mut rest = self.buckets;
        let mut out: Vec<SizeBucket> = Vec::new();
        let ghost mut from: Seq<int> = seq![];
        while rest.len() > 0
            invariant
                rest@.len() <= all.len(),
                rest@ == all.subrange(0, rest@.len() as int),
                from.len() == out@.len(),
                forall|k: int|
                    0 <= k < out@.len() ==> rest@.len() <= #[trigger] from[k] < all.len() && out@[k] == all[from[k]]
                        && all[from[k]].files@.len() >= 2,
                forall|k1: int, k2: int| 0 <= k1 < k2 < out@.len() ==> #[trigger] from[k1] > #[trigger] from[k2],
                forall|i: int|
                    rest@.len() <= i < all.len() && (#[trigger] all[i]).files@.len() >= 2 ==> exists|k: int|
                        0 <= k < out@.len() && from[k] == i,
            decreases rest@.len(),
        {
            let ghost before = rest@;
            let b = rest.pop();
            assert(rest@ =~= all.subrange(0, rest@.len() as int));
            match b {
                Some(b) => {
                    assert(b == all[rest@.len() as int]);
                    if b.files.len() >= 2 {
                        out.push(b);
                        proof {
                            let ghost old_from = from;
                            from = from.push(rest@.len() as int);
                            assert(from[from.len() - 1] == rest@.len() as int);
                            assert forall|i: int|
                                rest@.len() <= i < all.len() && (#[trigger] all[i]).files@.len() >= 2 implies exists|k: int|
                                    0 <= k < out@.len() && from[k] == i by {
                                if i > rest@.len() {
                                    let k = choose|k: int| 0 <= k < old_from.len() && old_from[k] == i;
                                    assert(from[k] == i);
                                } else {
                                    assert(from[from.len() - 1] == i);
                                }
                            }
                        }
                    }
                },
                None => {},
            }
        }
        proof {
            assert forall|k1: int, k2: int| 0 <= k1 < k2 < out@.len() implies (#[trigger] out@[k1]).size
                != (#[trigger] out@[k2]).size by {
                assert(from[k1] > from[k2]);
                assert(self.slots@[all[from[k1]].size] == from[k1]);
                assert(self.slots@[all[from[k2]].size] == from[k2]);
            }
            assert forall|s: u64|
                #[trigger] self.view().contains_key(s) && self.view()[s].len() >= 2 implies exists|k: int|
                    0 <= k < out@.len() && (#[trigger] out@[k]).size == s by {
                let i = self.slots@[s] as int;
                assert(all[i].files@.len() >= 2);
                let k = choose|k: int| 0 <= k < out@.len() && from[k] == i;
                assert(out@[k].size == s);
            }
            assert forall|k: int, f: int|
                #![trigger out@[k].files@[f]]
                0 <= k < out@.len() && 0 <= f < out@[k].files@.len() implies eligible(
                    out@[k].files@[f],
                    self.min_size_spec(),
                ) && out@[k].files@[f].md.size == out@[k].size by {
                assert(out@[k] == all[from[k]]);
                assert(all[from[k]].files@[f] == out@[k].files@[f]);
            }
            assert forall|k: int|
                0 <= k < out@.len() implies (#[trigger] out@[k]).files@.len() >= 2 && self.view().contains_key(
                    out@[k].size,
                ) && self.view()[out@[k].size] == out@[k].files@ by {
                assert(out@[k] == all[from[k]]);
                assert(self.slots@.contains_key(all[from[k]].size));
            }
        }
        out
    }

    /// Adds an eligible record to the bucket of its size.
    fn insert(&mut self, pwmd: PathWithMetadata)
        requires
            old(self).wf(),
            eligible(pwmd, old(self).min_size_spec()),
        ensures
            final(self).wf(),
            final(self).min_size_spec() == old(self).min_size_spec(),
            final(self).view() == old(self).view().insert(
                pwmd.md.size,
                if old(self).view().contains_key(pwmd.md.size) {
                    old(self).view()[pwmd.md.size].push(pwmd)
                } else {
                    seq![pwmd]
                },
            ),
    {
        let size = pwmd.md.size;
        match self.slots.get(&size) {
            Some(i) => {
                let i = *i;
                self.buckets[i].files.push(pwmd);
                proof {
                    assert forall|j: int, k: int|
                        #![trigger self.buckets@[j].files@[k]]
                        0 <= j < self.buckets@.len() && 0 <= k < self.buckets@[j].files@.len() implies eligible(
                            self.buckets@[j].files@[k],
                            self.min_size,
                        ) && self.buckets@[j].files@[k].md.size == self.buckets@[j].size by {
                        if j == i as int && k < old(self).buckets@[j].files@.len() {
                            assert(self.buckets@[j].files@[k] == old(self).buckets@[j].files@[k]);
                        }
                    }
                }
            },
            None => {
                let i = self.buckets.len();
                let mut files = Vec::new();
                files.push(pwmd);
                self.buckets.push(SizeBucket { size, files });
                self.slots.insert(size, i);
            },
        }
        proof {
            assert(self.view() =~= old(self).view().insert(
                pwmd.md.size,
                if old(self).view().contains_key(pwmd.md.size) {
                    old(self).view()[pwmd.md.size].push(pwmd)
                } else {
                    seq![pwmd]
                },
            ));
        }
    }
}

} // verus!
