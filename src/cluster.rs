use smallvec::SmallVec;
use crate::record::{metas_of, FileMeta, PathWithMetadata};
use vstd::prelude::*;

verus! {

/// The record indices of one inode cluster, in order.
///
/// Most clusters hold a single file, so the indices live inline in a
/// `SmallVec` until a second one arrives.
#[verifier::external_body]
pub struct Members {
    items: SmallVec<[usize; 1]>,
}

/// The record indices that a cluster holds, in order.
pub uninterp spec fn members_of(c: Members) -> Seq<usize>;

impl Members {
    /// Relies on `SmallVec::from_buf`: the vector holds exactly the array's items.
    #[verifier::external_body]
    pub(crate) fn one(k: usize) -> (r: Members)
        ensures
            members_of(r) == seq![k],
    {
        Members { items: SmallVec::from_buf([k]) }
    }

    /// Relies on `SmallVec::push`: the item is appended at the end.
    #[verifier::external_body]
    pub(crate) fn push(&mut self, k: usize)
        ensures
            members_of(*final(self)) == members_of(*old(self)).push(k),
    {
        self.items.push(k)
    }

    /// Relies on `SmallVec::len`: the number of items held.
    #[verifier::external_body]
    pub(crate) fn len(&self) -> (r: usize)
        ensures
            r == members_of(*self).len(),
    {
        self.items.len()
    }

    /// Relies on indexing a `SmallVec`, which derefs to the slice of its items.
    #[verifier::external_body]
    pub(crate) fn get(&self, p: usize) -> (r: usize)
        requires
            p < members_of(*self).len(),
        ensures
            r == members_of(*self)[p as int],
    {
        self.items[p]
    }
}

/// Two mutable references, to the items at `i` and at `j`.
pub fn get2mut<'a, T>(v: &'a mut [T], i: usize, j: usize) -> ((a, b): (&'a mut T, &'a mut T))
    requires
        i < j < old(v)@.len(),
    ensures
        *a == old(v)@[i as int],
        *b == old(v)@[j as int],
        final(v)@ == old(v)@.update(i as int, *final(a)).update(j as int, *final(b)),
{
    let (left, right) = v.split_at_mut(j);
    (&mut left[i], &mut right[0])
}

/// The key that identifies a physical file: device, then inode.
pub open spec fn key_of(m: FileMeta) -> (u64, u64) {
    (m.dev, m.ino)
}

pub open spec fn key_lt(a: (u64, u64), b: (u64, u64)) -> bool {
    a.0 < b.0 || (a.0 == b.0 && a.1 < b.1)
}

pub open spec fn keys_sorted(keys: Seq<(u64, u64)>) -> bool {
    forall|a: int, b: int| 0 <= a < b < keys.len() ==> key_lt(keys[a], keys[b])
}

fn key_less(a: (u64, u64), b: (u64, u64)) -> (r: bool)
    ensures
        r == key_lt(a, b),
{
    a.0 < b.0 || (a.0 == b.0 && a.1 < b.1)
}

/// Where `key` stands in the sorted `keys`: its index if present, else the
/// index at which inserting it keeps `keys` sorted.
fn find_key(keys: &Vec<(u64, u64)>, key: (u64, u64)) -> (r: (bool, usize))
    requires
        keys_sorted(keys@),
    ensures
        r.1 <= keys@.len(),
        r.0 ==> r.1 < keys@.len() && keys@[r.1 as int] == key,
        !r.0 ==> (forall|q: int| 0 <= q < r.1 ==> key_lt(#[trigger] keys@[q], key)),
        !r.0 ==> (forall|q: int| r.1 <= q < keys@.len() ==> key_lt(key, #[trigger] keys@[q])),
{
    let mut lo: usize = 0;
    let mut hi: usize = keys.len();
    while lo < hi
        invariant
            lo <= hi <= keys@.len(),
            keys_sorted(keys@),
            forall|q: int| 0 <= q < lo ==> key_lt(#[trigger] keys@[q], key),
            forall|q: int| hi <= q < keys@.len() ==> key_lt(key, #[trigger] keys@[q]),
        decreases hi - lo,
    {
        let mid = lo + (hi - lo) / 2;
        let k = keys[mid];
        if key_less(k, key) {
            assert forall|q: int| 0 <= q <= mid implies key_lt(#[trigger] keys@[q], key) by {
                if q < mid {
                    assert(key_lt(keys@[q], keys@[mid as int]));
                }
            }
            lo = mid + 1;
        } else if key_less(key, k) {
            assert forall|q: int| mid <= q < keys@.len() implies key_lt(key, #[trigger] keys@[q]) by {
                if q > mid {
                    assert(key_lt(keys@[mid as int], keys@[q]));
                }
            }
            hi = mid;
        } else {
            return (true, mid);
        }
    }
    (false, lo)
}

/// The indices of `records`, grouped by the physical file that they name,
/// one cluster per (device, inode) key.
pub open spec fn groups_by_key(metas: Seq<FileMeta>, cl: Seq<Seq<usize>>) -> bool {
    &&& forall|c: int| 0 <= c < cl.len() ==> cl[c].len() > 0
    &&& forall|c: int, p: int|
        #![trigger cl[c][p]]
        0 <= c < cl.len() && 0 <= p < cl[c].len() ==> cl[c][p] < metas.len()
            && key_of(metas[cl[c][p] as int]) == key_of(metas[cl[c][0] as int])
    &&& forall|c: int, d: int|
        0 <= c < cl.len() && 0 <= d < cl.len() && c != d ==> key_of(metas[cl[c][0] as int])
            != key_of(metas[cl[d][0] as int])
    &&& forall|k: usize| k < metas.len() ==> #[trigger] covered(cl, k)
    &&& forall|c: int, p: int, q: int|
        0 <= c < cl.len() && 0 <= p < q < cl[c].len() ==> #[trigger] cl[c][p] < #[trigger] cl[c][q]
}

/// Some cluster holds record `k`.
pub open spec fn covered(cl: Seq<Seq<usize>>, k: usize) -> bool {
    exists|c: int| 0 <= c < cl.len() && #[trigger] cl[c].contains(k)
}

pub open spec fn view_clusters(v: Seq<Members>) -> Seq<Seq<usize>> {
    v.map_values(|c: Members| members_of(c))
}

/// Partitions `records` into inode clusters.
pub(crate) fn group_by_inode(records: &Vec<PathWithMetadata>) -> (r: Vec<Members>)
    ensures
        groups_by_key(metas_of(records@), view_clusters(r@)),
        separated(metas_of(records@), view_clusters(r@)),
{
    let ghost metas = metas_of(records@);
    let mut clusters: Vec<Members> = Vec::new();
    let mut keys: Vec<(u64, u64)> = Vec::new();
    let mut idx: usize = 0;
    while idx < records.len()
        invariant
            metas == metas_of(records@),
            idx <= records@.len(),
            keys@.len() == clusters@.len(),
            keys_sorted(keys@),
            forall|c: int| 0 <= c < clusters@.len() ==> members_of(#[trigger] clusters@[c]).len() > 0,
            forall|c: int, p: int|
                #![trigger members_of(clusters@[c])[p]]
                0 <= c < clusters@.len() && 0 <= p < members_of(clusters@[c]).len() ==> {
                    let k = members_of(clusters@[c])[p];
                    k < idx && key_of(metas[k as int]) == keys@[c]
                },
            forall|k: usize| k < idx ==> #[trigger] covered(view_clusters(clusters@), k),
            forall|c: int, p: int, q: int|
                0 <= c < clusters@.len() && 0 <= p < q < members_of(clusters@[c]).len() ==> #[trigger] members_of(clusters@[c])[p]
                    < #[trigger] members_of(clusters@[c])[q],
        decreases records@.len() - idx,
    {
        let md = records[idx].md;
        let key = (md.dev, md.ino);
        assert(key_of(metas[idx as int]) == key);
        let ghost old_cl = view_clusters(clusters@);
        let ghost old_keys = keys@;
        let (found, pos) = find_key(&keys, key);
        if found {
            clusters[pos].push(idx);
            assert(view_clusters(clusters@) == old_cl.update(pos as int, old_cl[pos as int].push(idx)));
            assert forall|k: usize| k <= idx implies #[trigger] covered(view_clusters(clusters@), k) by {
                if k < idx {
                    assert(covered(old_cl, k));
                    let c = choose|c: int| 0 <= c < old_cl.len() && #[trigger] old_cl[c].contains(k);
                    let p = choose|p: int| 0 <= p < old_cl[c].len() && old_cl[c][p] == k;
                    assert(view_clusters(clusters@)[c][p] == k);
                    assert(view_clusters(clusters@)[c].contains(k));
                } else {
                    let last = view_clusters(clusters@)[pos as int].len() - 1;
                    assert(view_clusters(clusters@)[pos as int][last] == k);
                    assert(view_clusters(clusters@)[pos as int].contains(k));
                }
            }
        } else {
            keys.insert(pos, key);
            clusters.insert(pos, Members::one(idx));
            assert(view_clusters(clusters@) == old_cl.insert(pos as int, seq![idx]));
            assert forall|a: int, b: int| 0 <= a < b < keys@.len() implies key_lt(keys@[a], keys@[b]) by {
                if b < pos {
                } else if b == pos {
                } else if a < pos {
                    assert(key_lt(old_keys[a], old_keys[b - 1]));
                } else if a == pos {
                } else {
                    assert(key_lt(old_keys[a - 1], old_keys[b - 1]));
                }
            }
            assert forall|k: usize| k <= idx implies #[trigger] covered(view_clusters(clusters@), k) by {
                if k < idx {
                    assert(covered(old_cl, k));
                    let c = choose|c: int| 0 <= c < old_cl.len() && #[trigger] old_cl[c].contains(k);
                    let p = choose|p: int| 0 <= p < old_cl[c].len() && old_cl[c][p] == k;
                    if c < pos {
                        assert(view_clusters(clusters@)[c][p] == k);
                        assert(view_clusters(clusters@)[c].contains(k));
                    } else {
                        assert(view_clusters(clusters@)[c + 1][p] == k);
                        assert(view_clusters(clusters@)[c + 1].contains(k));
                    }
                } else {
                    assert(view_clusters(clusters@)[pos as int][0] == k);
                    assert(view_clusters(clusters@)[pos as int].contains(k));
                }
            }
        }
        idx += 1;
    }
    let ghost cl = view_clusters(clusters@);
    assert forall|c: int, p: int, q: int|
        0 <= c < cl.len() && 0 <= p < q < cl[c].len() implies #[trigger] cl[c][p] < #[trigger] cl[c][q] by {
        assert(members_of(clusters@[c])[p] == cl[c][p]);
        assert(members_of(clusters@[c])[q] == cl[c][q]);
    }
    assert forall|c: int, d: int|
        0 <= c < cl.len() && 0 <= d < cl.len() && c != d implies key_of(metas[cl[c][0] as int])
            != key_of(metas[cl[d][0] as int]) by {
        assert(members_of(clusters@[c])[0] == cl[c][0]);
        assert(members_of(clusters@[d])[0] == cl[d][0]);
        if c < d {
            assert(key_lt(keys@[c], keys@[d]));
        } else {
            assert(key_lt(keys@[d], keys@[c]));
        }
    }
    assert forall|c: int, p: int|
        #![trigger cl[c][p]]
        0 <= c < cl.len() && 0 <= p < cl[c].len() implies cl[c][p] < metas.len()
            && key_of(metas[cl[c][p] as int]) == key_of(metas[cl[c][0] as int]) by {
        assert(members_of(clusters@[c])[p] == cl[c][p]);
        assert(members_of(clusters@[c])[0] == cl[c][0]);
    }
    assert forall|a: int, b: int, p: int, q: int|
        0 <= a < b < cl.len() && 0 <= p < cl[a].len() && 0 <= q < cl[b].len() implies !metas[#[trigger] cl[a][p] as int].same_inode(
            metas[#[trigger] cl[b][q] as int],
        ) by {
        assert(key_of(metas[cl[a][p] as int]) == key_of(metas[cl[a][0] as int]));
        assert(key_of(metas[cl[b][q] as int]) == key_of(metas[cl[b][0] as int]));
        assert(key_of(metas[cl[a][0] as int]) != key_of(metas[cl[b][0] as int]));
    }
    clusters
}

/// Records of different clusters are different physical files; so no
/// record belongs to two clusters.
pub open spec fn separated(metas: Seq<FileMeta>, cl: Seq<Seq<usize>>) -> bool {
    forall|a: int, b: int, p: int, q: int|
        0 <= a < b < cl.len() && 0 <= p < cl[a].len() && 0 <= q < cl[b].len() ==> !metas[#[trigger] cl[a][p] as int].same_inode(
            metas[#[trigger] cl[b][q] as int],
        )
}

proof fn lemma_separated_move(metas: Seq<FileMeta>, s: Seq<Members>, k: int, p: int)
    requires
        0 <= p <= k < s.len(),
        separated(metas, view_clusters(s)),
    ensures
        separated(metas, view_clusters(s.remove(k).insert(p, s[k]))),
{
    let t = s.remove(k).insert(p, s[k]);
    let cs = view_clusters(s);
    let ct = view_clusters(t);
    let f = |j: int|
        if j < p {
            j
        } else if j == p {
            k
        } else if j <= k {
            j - 1
        } else {
            j
        };
    assert forall|j: int| 0 <= j < t.len() implies #[trigger] ct[j] == cs[f(j)] by {}
    assert forall|a: int, b: int, x: int, y: int|
        0 <= a < b < ct.len() && 0 <= x < ct[a].len() && 0 <= y < ct[b].len() implies !metas[#[trigger] ct[a][x] as int].same_inode(
            metas[#[trigger] ct[b][y] as int],
        ) by {
        assert(ct[a] == cs[f(a)]);
        assert(ct[b] == cs[f(b)]);
        if f(a) < f(b) {
            assert(!metas[cs[f(a)][x] as int].same_inode(metas[cs[f(b)][y] as int]));
        } else {
            assert(!metas[cs[f(b)][y] as int].same_inode(metas[cs[f(a)][x] as int]));
        }
    }
}

/// Clusters are ordered largest first.
pub open spec fn sorted_by_size(cl: Seq<Seq<usize>>) -> bool {
    forall|a: int, b: int| 0 <= a < b < cl.len() ==> cl[a].len() >= cl[b].len()
}

proof fn lemma_multiset_remove_insert<A>(s: Seq<A>, k: int, p: int)
    requires
        0 <= k < s.len(),
        0 <= p < s.len(),
    ensures
        s.remove(k).insert(p, s[k]).to_multiset() == s.to_multiset(),
{
    broadcast use vstd::seq_lib::group_to_multiset_ensures, vstd::multiset::group_multiset_axioms;

    vstd::seq_lib::to_multiset_insert(s.remove(k), p, s[k]);
    assert(s.to_multiset().contains(s[k]));
    assert(s.to_multiset().remove(s[k]).insert(s[k]) =~= s.to_multiset());
}

/// Stable insertion sort of clusters by decreasing member count.
pub(crate) fn sort_by_size(v: &mut Vec<Members>, Ghost(metas): Ghost<Seq<FileMeta>>)
    requires
        separated(metas, view_clusters(old(v)@)),
    ensures
        separated(metas, view_clusters(final(v)@)),
        final(v)@.to_multiset() == old(v)@.to_multiset(),
        sorted_by_size(view_clusters(final(v)@)),
{
    let n = v.len();
    let mut k: usize = 1;
    while k < n
        invariant
            n == v@.len(),
            1 <= k || n == 0,
            separated(metas, view_clusters(v@)),
            v@.to_multiset() == old(v)@.to_multiset(),
            forall|a: int, b: int|
                0 <= a < b < k && b < n ==> members_of(#[trigger] v@[a]).len() >= members_of(
                    #[trigger] v@[b],
                ).len(),
        decreases n - k,
    {
        let ghost before = v@;
        let c = v.remove(k);
        let size = c.len();
        let mut p = k;
        while p > 0 && v[p - 1].len() < size
            invariant
                p <= k < n,
                before.len() == n,
                size == members_of(before[k as int]).len(),
                v@ == before.remove(k as int),
                forall|q: int| p <= q < k ==> members_of(#[trigger] v@[q]).len() < size,
            decreases p,
        {
            p -= 1;
        }
        v.insert(p, c);
        proof {
            lemma_multiset_remove_insert(before, k as int, p as int);
            lemma_separated_move(metas, before, k as int, p as int);
            assert(v@ == before.remove(k as int).insert(p as int, before[k as int]));
            assert forall|a: int, b: int|
                0 <= a < b < k + 1 && b < n implies members_of(#[trigger] v@[a]).len()
                >= members_of(#[trigger] v@[b]).len() by {
                if b < p {
                } else if b == p {
                    if p > 0 {
                        assert(members_of(before[a]).len() >= members_of(before[p - 1]).len());
                    }
                } else if a < p {
                    assert(members_of(before[a]).len() >= members_of(before[p - 1]).len());
                } else if a == p {
                } else {
                }
            }
        }
        k += 1;
    }
}

} // verus!
