use crate::cluster::{
    covered, get2mut, group_by_inode, separated, members_of, sort_by_size, sorted_by_size, view_clusters,
    Members,
};
use crate::record::{metas_of, FileMeta, PathWithMetadata};
use vstd::prelude::*;

verus! {

/// What the caller is to do next for one size bucket. Records are named by
/// their index in the bucket.
#[derive(Clone, Copy, Debug, PartialEq, Eq, Structural)]
pub enum Step {
    /// Compare the contents of the two records; answer `Same` or `Differ`.
    Compare { keep: usize, replace: usize },
    /// Remove `replace` and recreate it as a hardlink to `keep`; answer
    /// `Linked` with its metadata read again, or `Failed`.
    Link { keep: usize, replace: usize },
    /// As `Link`, in a dry run: report it without touching the filesystem
    /// and answer `Pretended`.
    Pretend { keep: usize, replace: usize },
    /// Nothing is left to do for this bucket.
    Done,
}

/// What came of the step that the caller performed.
#[derive(Clone, Copy, Debug, PartialEq, Eq, Structural)]
pub enum Outcome {
    /// The two files hold the same bytes.
    Same,
    /// The two files differ, or one of them could not be read.
    Differ,
    /// The link was made; this is the replaced path's new metadata.
    Linked(FileMeta),
    /// The link could not be made, or the new metadata could not be read.
    Failed,
    /// The link was reported in a dry run.
    Pretended,
}

/// The inode cluster engine for one size bucket.
///
/// Records are grouped into clusters of records that already share an
/// inode, largest cluster first. Then each pair of clusters is settled by
/// one comparison of their representatives (their first members): when they
/// hold the same bytes, every member of the later cluster is relinked onto
/// the earlier one's representative and the later cluster leaves the work
/// list.
pub struct Merger {
    records: Vec<PathWithMetadata>,
    clusters: Vec<Members>,
    outer: usize,
    inner: usize,
    next: usize,
    linking: bool,
    dry_run: bool,
    initial: Ghost<Seq<FileMeta>>,
    same: Ghost<Set<(usize, usize)>>,
    differ: Ghost<Set<(usize, usize)>>,
    linked: Ghost<Set<(usize, usize)>>,
    skipped: Ghost<Set<usize>>,
    /// Records that have served as the keeping side.
    keepers: Ghost<Set<usize>>,
    /// Records that have been offered as the replaced side.
    handled: Ghost<Set<usize>>,
    /// Records compared with the current keeping representative.
    met: Ghost<Set<usize>>,
}

/// Every relinked pair `(keep, replace)` was justified: `replace` shared an
/// inode with a file whose contents were reported equal to `keep`'s.
pub open spec fn links_justified(
    initial: Seq<FileMeta>,
    same: Set<(usize, usize)>,
    linked: Set<(usize, usize)>,
) -> bool {
    forall|pair: (usize, usize)|
        #[trigger] linked.contains(pair) ==> exists|q: usize|
            #[trigger] same.contains((pair.0, q)) && initial[pair.1 as int].same_inode(
                initial[q as int],
            )
}

proof fn lemma_same_elements<A>(a: Seq<A>, b: Seq<A>)
    requires
        a.to_multiset() == b.to_multiset(),
    ensures
        forall|x: A| a.contains(x) ==> #[trigger] b.contains(x),
{
    assert forall|x: A| a.contains(x) implies #[trigger] b.contains(x) by {
        vstd::seq_lib::to_multiset_contains(a, x);
        vstd::seq_lib::to_multiset_contains(b, x);
    }
}

/// The number of pairs among `k` items.
pub open spec fn pairs(k: int) -> int
    decreases k,
{
    if k <= 1 {
        0
    } else {
        pairs(k - 1) + (k - 1)
    }
}

/// The number of pairs among some items is never negative.
pub proof fn lemma_pairs_nonneg(k: int)
    ensures
        pairs(k) >= 0,
    decreases k,
{
    if k > 1 {
        lemma_pairs_nonneg(k - 1);
    }
}

/// `a` comes before `b` in lexicographic order.
pub open spec fn lex_lt(a: (int, int), b: (int, int)) -> bool {
    a.0 < b.0 || (a.0 == b.0 && a.1 < b.1)
}

/// The `(keep, replace)` records of a link step.
pub open spec fn link_pair(s: Step) -> (usize, usize) {
    match s {
        Step::Link { keep, replace } => (keep, replace),
        Step::Pretend { keep, replace } => (keep, replace),
        _ => (0, 0),
    }
}

/// The cursor `(outer, inner)` once the inner index has moved on: when it
/// has run past the last cluster and a pair of later clusters is left, the
/// next keeping cluster is taken.
pub open spec fn settle(len: int, outer: int, inner: int) -> (int, int) {
    if inner >= len && len - outer > 2 {
        (outer + 1, outer + 2)
    } else {
        (outer, inner)
    }
}

/// What one `advance` from `before`, answered by `outcome`, leads to.
///
/// After a comparison the clusters stay as they are. `Same` starts the
/// relinking of the inner cluster's members, in order from the first;
/// `Differ` moves on to the next pair of clusters. After a link step the
/// member joins the keeping cluster, unless its link failed and it is
/// skipped; then the next member of the same cluster is offered, or, once
/// every member was handled, the inner cluster leaves the list (the last
/// cluster takes its place) and the next pair is taken.
pub open spec fn advance_post(before: Merger, after: Merger, outcome: Outcome) -> bool {
    let cl = before.cl();
    let o = before.outer_index();
    let i = before.inner_index();
    &&& after.initial() == before.initial()
    &&& after.is_dry_run() == before.is_dry_run()
    &&& after.records_view().len() == before.records_view().len()
    &&& forall|k: int|
        0 <= k < before.records_view().len() ==> (#[trigger] after.records_view()[k]).path
            == before.records_view()[k].path
    &&& match before.next_step() {
        Step::Compare { keep, replace } => {
            &&& after.cl() == cl
            &&& after.records_view() == before.records_view()
            &&& after.relinked() == before.relinked()
            &&& after.skipped() == before.skipped()
            &&& outcome is Same ==> {
                &&& after.reported_same() == before.reported_same().insert((keep, replace))
                &&& after.reported_differ() == before.reported_differ()
                &&& after.is_linking()
                &&& after.outer_index() == o && after.inner_index() == i
                &&& after.member_index() == 0
                &&& after.next_step() == (if before.is_dry_run() {
                    Step::Pretend { keep, replace }
                } else {
                    Step::Link { keep, replace }
                })
            }
            &&& outcome is Differ ==> {
                &&& after.reported_differ() == before.reported_differ().insert((keep, replace))
                &&& after.reported_same() == before.reported_same()
                &&& !after.is_linking()
                &&& (after.outer_index(), after.inner_index()) == settle(cl.len() as int, o, i + 1)
            }
        },
        Step::Link { keep, replace } | Step::Pretend { keep, replace } => {
            let joins = !(outcome is Failed);
            let grown = if joins {
                cl.update(o, cl[o].push(replace))
            } else {
                cl
            };
            &&& after.reported_same() == before.reported_same()
            &&& after.reported_differ() == before.reported_differ()
            &&& outcome is Failed ==> after.skipped() == before.skipped().insert(replace)
                && after.relinked() == before.relinked()
                && after.records_view() == before.records_view()
            &&& joins ==> after.relinked() == before.relinked().insert((keep, replace))
                && after.skipped() == before.skipped()
            &&& outcome is Pretended ==> after.records_view() == before.records_view()
            &&& (outcome matches Outcome::Linked(md) ==> after.records_view()
                == before.records_view().update(
                replace as int,
                PathWithMetadata { path: before.records_view()[replace as int].path, md },
            ))
            &&& if before.member_index() + 1 < cl[i].len() {
                &&& after.cl() == grown
                &&& after.is_linking()
                &&& after.outer_index() == o && after.inner_index() == i
                &&& after.member_index() == before.member_index() + 1
            } else {
                &&& after.cl() == grown.update(i, grown.last()).drop_last()
                &&& !after.is_linking()
                &&& (after.outer_index(), after.inner_index()) == settle(grown.len() - 1, o, i)
            }
        },
        Step::Done => true,
    }
}

impl Merger {
    /// The index of the keeping cluster: the one whose representative the
    /// current comparisons and links are made against.
    pub closed spec fn outer_index(&self) -> int {
        self.outer as int
    }

    /// The index of the cluster compared with, or absorbed into, the keeping
    /// cluster.
    pub closed spec fn inner_index(&self) -> int {
        self.inner as int
    }

    /// While absorbing: the position, in the absorbed cluster, of the member
    /// to relink next.
    pub closed spec fn member_index(&self) -> int {
        self.next as int
    }

    /// Whether the members of the inner cluster are being relinked.
    pub closed spec fn is_linking(&self) -> bool {
        self.linking
    }

    /// How much work is left: first the pairs of clusters still to settle
    /// (a pair being linked counts as settled), then the members of the
    /// cluster being linked that are still to be handled.
    pub open spec fn progress(&self) -> (int, int) {
        let len = self.cl().len() as int;
        let o = self.outer_index();
        let i = self.inner_index();
        if i >= len {
            (0, 0)
        } else if self.is_linking() {
            (pairs(len - o - 1) + (len - i) - 1, self.cl()[i].len() - self.member_index())
        } else {
            (pairs(len - o - 1) + (len - i), 0)
        }
    }

    /// The facts about the cursor and the clusters that hold in every state.
    pub open spec fn shape(&self) -> bool {
        let cl = self.cl();
        let o = self.outer_index();
        let i = self.inner_index();
        &&& 0 <= o < i
        &&& (i >= cl.len() ==> o + 2 >= cl.len() && !self.is_linking())
        &&& (self.is_linking() ==> i < cl.len() && 0 <= self.member_index() < cl[i].len())
        &&& forall|c: int| 0 <= c < cl.len() ==> #[trigger] cl[c].len() > 0
        &&& forall|c: int, p: int|
            #![trigger cl[c][p]]
            0 <= c < cl.len() && 0 <= p < cl[c].len() ==> cl[c][p] < self.records_view().len()
        &&& forall|a: int, b: int, p: int, q: int|
            0 <= a < b < cl.len() && 0 <= p < cl[a].len() && 0 <= q < cl[b].len() && #[trigger] cl[a][p]
                == #[trigger] cl[b][q] ==> self.is_linking() && a == o && b == i && p >= 1 && q
                < self.member_index()
        &&& forall|c: int, p: int, q: int|
            0 <= c < cl.len() && 0 <= p < cl[c].len() && 0 <= q < cl[c].len() && p != q ==> #[trigger] cl[c][p]
                != #[trigger] cl[c][q]
    }

    /// The clusters, as lists of record indices.
    pub closed spec fn cl(&self) -> Seq<Seq<usize>> {
        view_clusters(self.clusters@)
    }

    /// The records of the bucket.
    pub closed spec fn records_view(&self) -> Seq<PathWithMetadata> {
        self.records@
    }

    /// The metadata of the records as the bucket was handed over.
    pub closed spec fn initial(&self) -> Seq<FileMeta> {
        self.initial@
    }

    /// Pairs of representatives `(keep, replace)` reported to hold the same bytes.
    pub closed spec fn reported_same(&self) -> Set<(usize, usize)> {
        self.same@
    }

    /// Pairs of representatives `(keep, replace)` reported to differ.
    pub closed spec fn reported_differ(&self) -> Set<(usize, usize)> {
        self.differ@
    }

    /// Pairs `(keep, replace)` where `replace` was relinked onto `keep`.
    pub closed spec fn relinked(&self) -> Set<(usize, usize)> {
        self.linked@
    }

    /// Records whose relinking failed; they are left out of every cluster.
    pub closed spec fn skipped(&self) -> Set<usize> {
        self.skipped@
    }

    /// Links are only pretended, never asked for.
    pub closed spec fn is_dry_run(&self) -> bool {
        self.dry_run
    }

    /// The representative of cluster `c`.
    pub open spec fn rep(&self, c: int) -> usize {
        self.cl()[c][0]
    }

    /// The step that `action` returns: the link of the next member of the
    /// cluster being absorbed, else the comparison of the current pair of
    /// clusters, else nothing.
    pub open spec fn next_step(&self) -> Step {
        if self.is_linking() {
            let keep = self.rep(self.outer_index());
            let replace = self.cl()[self.inner_index()][self.member_index()];
            if self.is_dry_run() {
                Step::Pretend { keep, replace }
            } else {
                Step::Link { keep, replace }
            }
        } else if self.inner_index() < self.cl().len() {
            Step::Compare { keep: self.rep(self.outer_index()), replace: self.rep(self.inner_index()) }
        } else {
            Step::Done
        }
    }

    /// The outcomes that answer the current step.
    pub open spec fn accepts(&self, o: Outcome) -> bool {
        match self.next_step() {
            Step::Compare { .. } => o is Same || o is Differ,
            Step::Link { .. } => o is Linked || o is Failed,
            Step::Pretend { .. } => o is Pretended,
            Step::Done => false,
        }
    }

    /// Clusters the bucket's records by inode, largest cluster first, ready
    /// for the first comparison.
    pub fn new(records: Vec<PathWithMetadata>, dry_run: bool) -> (m: Merger)
        ensures
            m.wf(),
            m.shape(),
            m.records_view() == records@,
            m.initial() == metas_of(records@),
            m.is_dry_run() == dry_run,
            m.reported_same() == Set::<(usize, usize)>::empty(),
            m.reported_differ() == Set::<(usize, usize)>::empty(),
            m.relinked() == Set::<(usize, usize)>::empty(),
            m.skipped() == Set::<usize>::empty(),
            m.next_step() == (if m.cl().len() >= 2 {
                Step::Compare { keep: m.rep(0), replace: m.rep(1) }
            } else {
                Step::Done
            }),
            sorted_by_size(m.cl()),
            separated(m.initial(), m.cl()),
            forall|c: int| 0 <= c < m.cl().len() ==> #[trigger] m.cl()[c].len() > 0,
            forall|c: int, p: int|
                #![trigger m.cl()[c][p]]
                0 <= c < m.cl().len() && 0 <= p < m.cl()[c].len() ==> m.cl()[c][p] < records@.len(),
            forall|c: int, p: int|
                #![trigger m.cl()[c][p]]
                0 <= c < m.cl().len() && 0 <= p < m.cl()[c].len() ==> m.initial()[m.cl()[c][p] as int].same_inode(
                    m.initial()[m.rep(c) as int],
                ),
            forall|k: usize| k < records@.len() ==> #[trigger] covered(m.cl(), k),
    {
        let mut clusters = group_by_inode(&records);
        let ghost grouped = clusters@;
        let ghost metas = metas_of(records@);
        sort_by_size(&mut clusters, Ghost(metas));
        let ghost cl = view_clusters(clusters@);
        proof {
            lemma_same_elements(clusters@, grouped);
            lemma_same_elements(grouped, clusters@);
            assert forall|c: int| 0 <= c < cl.len() implies #[trigger] cl[c].len() > 0 && (forall|p: int|
                #![trigger cl[c][p]]
                0 <= p < cl[c].len() ==> cl[c][p] < metas.len() && metas[cl[c][p] as int].same_inode(
                    metas[cl[c][0] as int],
                )) && (forall|p: int, q: int|
                0 <= p < q < cl[c].len() ==> #[trigger] cl[c][p] < #[trigger] cl[c][q]) by {
                assert(clusters@.contains(clusters@[c]));
                assert(grouped.contains(clusters@[c]));
                let d = choose|d: int| 0 <= d < grouped.len() && grouped[d] == clusters@[c];
                assert(view_clusters(grouped)[d] == cl[c]);
                assert forall|p: int| #![trigger cl[c][p]] 0 <= p < cl[c].len() implies cl[c][p] < metas.len()
                    && metas[cl[c][p] as int].same_inode(metas[cl[c][0] as int]) by {
                    assert(view_clusters(grouped)[d][p] == cl[c][p]);
                }
                assert forall|p: int, q: int| 0 <= p < q < cl[c].len() implies #[trigger] cl[c][p] < #[trigger] cl[c][q] by {
                    assert(view_clusters(grouped)[d][p] == cl[c][p]);
                    assert(view_clusters(grouped)[d][q] == cl[c][q]);
                }
            }
            assert forall|k: usize| k < metas.len() implies #[trigger] covered(cl, k) by {
                assert(covered(view_clusters(grouped), k));
                let d = choose|d: int| 0 <= d < grouped.len() && #[trigger] view_clusters(grouped)[d].contains(k);
                assert(grouped.contains(grouped[d]));
                assert(clusters@.contains(grouped[d]));
                let c = choose|c: int| 0 <= c < clusters@.len() && clusters@[c] == grouped[d];
                assert(cl[c] == view_clusters(grouped)[d]);
            }
        }
        Merger {
            records,
            clusters,
            outer: 0,
            inner: 1,
            next: 0,
            linking: false,
            dry_run,
            initial: Ghost(metas),
            same: Ghost(Set::empty()),
            differ: Ghost(Set::empty()),
            linked: Ghost(Set::empty()),
            skipped: Ghost(Set::empty()),
            keepers: Ghost(Set::empty()),
            handled: Ghost(Set::empty()),
            met: Ghost(Set::empty()),
        }
    }

    /// What the caller is to do next.
    pub fn action(&self) -> (r: Step)
        requires
            self.wf(),
        ensures
            r == self.next_step(),
            self.shape(),
            self.is_dry_run() ==> !(r is Link),
            !self.is_dry_run() ==> !(r is Pretend),
            r matches Step::Compare { keep, replace } ==> {
                &&& 0 <= self.outer_index() < self.inner_index() < self.cl().len()
                &&& keep == self.rep(self.outer_index())
                &&& replace == self.rep(self.inner_index())
                &&& !self.initial()[keep as int].same_inode(self.initial()[replace as int])
                &&& !self.reported_same().contains((keep, replace))
                &&& !self.reported_differ().contains((keep, replace))
            },
            (r is Link || r is Pretend) ==> {
                let keep = link_pair(r).0;
                let replace = link_pair(r).1;
                let i = self.inner_index();
                &&& 0 <= self.outer_index() < i < self.cl().len()
                &&& keep < self.records_view().len() && replace < self.records_view().len()
                &&& keep == self.rep(self.outer_index())
                &&& replace == self.cl()[i][self.member_index()]
                &&& self.reported_same().contains((keep, self.rep(i)))
                &&& self.initial()[replace as int].same_inode(self.initial()[self.rep(i) as int])
                &&& !self.initial()[keep as int].same_inode(self.initial()[replace as int])
                &&& !self.skipped().contains(replace)
                &&& forall|k: usize| !#[trigger] self.relinked().contains((k, replace))
                &&& forall|k: usize| !#[trigger] self.relinked().contains((replace, k))
                &&& forall|k: usize| !#[trigger] self.reported_same().contains((replace, k))
                &&& forall|k: usize| !#[trigger] self.reported_differ().contains((replace, k))
            },
    {
        proof {
            let cl = self.cl();
            if self.linking {
                assert(cl[self.inner as int][self.next as int] == cl[self.inner as int][self.next as int]);
                assert(cl[self.inner as int][0] == cl[self.inner as int][0]);
                assert(cl[self.outer as int][0] == cl[self.outer as int][0]);
            } else if self.inner < cl.len() {
                assert(cl[self.inner as int][0] == cl[self.inner as int][0]);
                assert(cl[self.outer as int][0] == cl[self.outer as int][0]);
            }
        }
        if self.linking {
            let keep = self.clusters[self.outer].get(0);
            let replace = self.clusters[self.inner].get(self.next);
            if self.dry_run {
                Step::Pretend { keep, replace }
            } else {
                Step::Link { keep, replace }
            }
        } else if self.inner < self.clusters.len() {
            Step::Compare {
                keep: self.clusters[self.outer].get(0),
                replace: self.clusters[self.inner].get(0),
            }
        } else {
            Step::Done
        }
    }

    /// Takes in what came of the current step and moves to the next one.
    ///
    /// A comparison is recorded as reported. After `Same` the members of
    /// the compared cluster are relinked one by one; a member whose link
    /// failed is skipped and belongs to no cluster any more. Once all are
    /// handled the emptied cluster leaves the work list.
    pub fn advance(&mut self, outcome: Outcome)
        requires
            old(self).wf(),
            old(self).accepts(outcome),
        ensures
            final(self).wf(),
            final(self).shape(),
            lex_lt(final(self).progress(), old(self).progress()),
            advance_post(*old(self), *final(self), outcome),
    {
        if !self.linking {
            self.take_comparison(outcome);
        } else {
            self.take_link(outcome);
        }
    }

    #[verifier::rlimit(30)]
    fn take_comparison(&mut self, outcome: Outcome)
        requires
            old(self).wf(),
            old(self).accepts(outcome),
            !old(self).linking,
        ensures
            final(self).wf(),
            final(self).shape(),
            lex_lt(final(self).progress(), old(self).progress()),
            advance_post(*old(self), *final(self), outcome),
    {
        proof {
            assert(self.cl().len() == self.clusters@.len());
        }
        let len = self.clusters.len();
        assert(self.inner < len);
        let keep = self.clusters[self.outer].get(0);
        let replace = self.clusters[self.inner].get(0);
        match outcome {
            Outcome::Same => {
                self.same = Ghost(self.same@.insert((keep, replace)));
                self.keepers = Ghost(self.keepers@.insert(keep));
                self.met = Ghost(self.met@.insert(replace));
                self.linking = true;
                self.next = 0;
                proof {
                    self.lemma_justified_more_same(old(self).same@);
                    assert(self.clusters@ == old(self).clusters@);
                    assert forall|a: int, b: int|
                        0 <= a < b < len && a < self.outer implies self.differ@.contains(
                            (#[trigger] self.rep(a), #[trigger] self.rep(b)),
                        ) by {
                        assert(old(self).differ@.contains((old(self).rep(a), old(self).rep(b))));
                    }
                    assert forall|b: int|
                        self.outer < b < self.inner && b < len implies self.differ@.contains(
                            (self.rep(self.outer as int), #[trigger] self.rep(b)),
                        ) by {
                        assert(old(self).differ@.contains((old(self).rep(self.outer as int), old(self).rep(b))));
                    }
                }
            },
            _ => {
                self.differ = Ghost(self.differ@.insert((keep, replace)));
                self.keepers = Ghost(self.keepers@.insert(keep));
                self.met = Ghost(self.met@.insert(replace));
                self.inner = self.inner + 1;
                if self.inner >= len && len - self.outer > 2 {
                    self.outer = self.outer + 1;
                    self.inner = self.outer + 1;
                    self.met = Ghost(Set::empty());
                }
                proof {
                    let o = old(self).outer as int;
                    assert forall|a: int, b: int|
                        0 <= a < b < len && a < self.outer implies self.differ@.contains(
                            (#[trigger] self.rep(a), #[trigger] self.rep(b)),
                        ) by {
                        assert(self.rep(a) == old(self).rep(a));
                        assert(self.rep(b) == old(self).rep(b));
                        if a == o && b < old(self).inner {
                            assert(old(self).differ@.contains((old(self).rep(o), old(self).rep(b))));
                        }
                    }
                    assert forall|b: int|
                        self.outer < b < self.inner && b < len implies self.differ@.contains(
                            (self.rep(self.outer as int), #[trigger] self.rep(b)),
                        ) by {
                        assert(self.rep(b) == old(self).rep(b));
                        assert(self.rep(o) == old(self).rep(o));
                        if b < old(self).inner {
                            assert(old(self).differ@.contains((old(self).rep(o), old(self).rep(b))));
                        }
                    }
                }
            },
        }
    }

    #[verifier::rlimit(60)]
    fn take_link(&mut self, outcome: Outcome)
        requires
            old(self).wf(),
            old(self).accepts(outcome),
            old(self).linking,
        ensures
            final(self).wf(),
            final(self).shape(),
            lex_lt(final(self).progress(), old(self).progress()),
            advance_post(*old(self), *final(self), outcome),
    {
        proof {
            assert(self.cl().len() == self.clusters@.len());
        }
        let count = self.clusters[self.inner].len();
        let ghost cl0 = self.cl();
        let ghost o = self.outer as int;
        let ghost i = self.inner as int;
        let (keeps, replaces) = get2mut(self.clusters.as_mut_slice(), self.outer, self.inner);
        let keep = keeps.get(0);
        let replace = replaces.get(self.next);
        self.handled = Ghost(self.handled@.insert(replace));
        let joins = match outcome {
            Outcome::Failed => false,
            _ => true,
        };
        if joins {
            keeps.push(replace);
        }
        proof {
            if joins {
                assert(self.cl() == cl0.update(o, cl0[o].push(replace)));
            } else {
                assert(self.cl() == cl0);
            }
        }
        match outcome {
            Outcome::Linked(md) => {
                self.records[replace].reset_md(md);
                self.linked = Ghost(self.linked@.insert((keep, replace)));
            },
            Outcome::Pretended => {
                self.linked = Ghost(self.linked@.insert((keep, replace)));
            },
            _ => {
                self.skipped = Ghost(self.skipped@.insert(replace));
            },
        }
        let ghost cl1 = self.cl();
        proof {
            assert(keep == cl0[o][0]);
            assert forall|c: int| 0 <= c < cl1.len() implies #[trigger] cl1[c].len() > 0
                && cl1[c][0] == cl0[c][0] && (c != o ==> cl1[c] == cl0[c]) by {
                assert(cl0[c].len() > 0);
            }
            assert forall|x: usize| #[trigger] cl0[o].contains(x) implies cl1[o].contains(x) by {
                let p = choose|p: int| 0 <= p < cl0[o].len() && cl0[o][p] == x;
                assert(cl1[o][p] == x);
            }
            if joins {
                assert(cl1[o][cl1[o].len() - 1] == replace);
                assert(cl1[o].contains(replace));
                assert(self.initial@[replace as int].same_inode(self.initial@[cl0[i][0] as int]));
                assert(self.same@.contains((keep, cl0[i][0])));
                assert forall|pair: (usize, usize)| #[trigger] self.linked@.contains(pair) implies exists|q: usize|
                    #[trigger] self.same@.contains((pair.0, q)) && self.initial@[pair.1 as int].same_inode(
                        self.initial@[q as int],
                    ) by {
                    if pair == (keep, replace) {
                        assert(self.same@.contains((pair.0, cl0[i][0])));
                    } else {
                        assert(old(self).linked@.contains(pair));
                    }
                }
            }
            assert forall|k: usize| k < self.records@.len() implies self.skipped@.contains(k) || #[trigger] covered(cl1, k) by {
                if !self.skipped@.contains(k) {
                    assert(covered(cl0, k));
                    let c = choose|c: int| 0 <= c < cl0.len() && #[trigger] cl0[c].contains(k);
                    assert(cl1[c].contains(k));
                }
            }
            assert forall|p: int| 0 <= p < self.next + 1 implies cl1[o].contains(
                #[trigger] cl1[i][p]) || self.skipped@.contains(cl1[i][p]) by {
                if p < self.next {
                    assert(cl0[o].contains(cl0[i][p]) || old(self).skipped@.contains(cl0[i][p]));
                }
            }
            assert forall|c: int, p: int| #![trigger cl1[c][p]] 0 <= c < cl1.len() && 0 <= p < cl1[c].len()
                implies cl1[c][p] < self.records@.len() && (self.initial@[cl1[c][p] as int].same_inode(
                self.initial@[cl1[c][0] as int]) || self.linked@.contains((cl1[c][0], cl1[c][p]))) by {
                if c != o || p < cl0[o].len() {
                    assert(cl1[c][p] == cl0[c][p]);
                }
            }
        }
        self.next = self.next + 1;
        if self.next == count {
            self.clusters.swap_remove(self.inner);
            self.linking = false;
            let len = self.clusters.len();
            if self.inner >= len && len - self.outer > 2 {
                self.outer = self.outer + 1;
                self.inner = self.outer + 1;
                self.met = Ghost(Set::empty());
            }
            proof {
                let cl2 = self.cl();
                let last = cl1.len() - 1;
                let n_left = cl1.len() - o;
                lemma_pairs_nonneg(n_left - 1);
                lemma_pairs_nonneg(n_left - 2);
                lemma_pairs_nonneg(n_left - 3);
                if n_left - 1 > 1 {
                    assert(pairs(n_left - 1) == pairs(n_left - 2) + (n_left - 2));
                }
                if n_left - 2 > 1 {
                    assert(pairs(n_left - 2) == pairs(n_left - 3) + (n_left - 3));
                }
                assert(cl2 == cl1.update(i, cl1[last]).drop_last());
                assert forall|c: int| 0 <= c < cl2.len() implies #[trigger] cl2[c] == cl1[if c == i {
                    last
                } else {
                    c
                }] by {}
                assert forall|c: int| 0 <= c < cl2.len() implies #[trigger] cl2[c].len() > 0 by {
                    assert(cl2[c] == cl1[if c == i { last } else { c }]);
                }
                assert forall|c: int, p: int| #![trigger cl2[c][p]] 0 <= c < cl2.len() && 0 <= p < cl2[c].len()
                    implies cl2[c][p] < self.records@.len() && (self.initial@[cl2[c][p] as int].same_inode(
                    self.initial@[cl2[c][0] as int]) || self.linked@.contains((cl2[c][0], cl2[c][p])))
                    && (self.outer < c ==> self.initial@[cl2[c][p] as int].same_inode(
                    self.initial@[cl2[c][0] as int])) by {
                    let d = if c == i { last } else { c };
                    assert(cl2[c] == cl1[d]);
                    assert(cl1[d][p] == cl2[c][p]);
                    assert(cl1[d][0] == cl2[c][0]);
                    if self.outer < c {
                        assert(cl1[d] == cl0[d]);
                        assert(cl0[d][p] == cl1[d][p]);
                    }
                }
                assert forall|a: int, b: int|
                    0 <= a < b < cl2.len() && a < self.outer implies self.differ@.contains(
                        (#[trigger] self.rep(a), #[trigger] self.rep(b)),
                    ) by {
                    let d = if b == i { last } else { b };
                    assert(cl2[b] == cl1[d]);
                    assert(cl2[a] == cl1[a]);
                    assert(self.rep(b) == old(self).rep(d));
                    assert(self.rep(a) == old(self).rep(a));
                    if a == o {
                        assert(old(self).differ@.contains((old(self).rep(o), old(self).rep(b))));
                    } else {
                        assert(old(self).differ@.contains((old(self).rep(a), old(self).rep(d))));
                    }
                }
                assert forall|b: int|
                    self.outer < b < self.inner && b < cl2.len() implies self.differ@.contains(
                        (self.rep(self.outer as int), #[trigger] self.rep(b)),
                    ) by {
                    assert(cl2[b] == cl1[b]);
                    assert(cl2[o] == cl1[o]);
                    assert(old(self).differ@.contains((old(self).rep(o), old(self).rep(b))));
                }
                assert forall|k: usize| k < self.records@.len() implies self.skipped@.contains(k) || #[trigger] covered(cl2, k) by {
                    if !self.skipped@.contains(k) {
                        assert(covered(cl1, k));
                        let c = choose|c: int| 0 <= c < cl1.len() && #[trigger] cl1[c].contains(k);
                        if c == i {
                            let p = choose|p: int| 0 <= p < cl1[i].len() && cl1[i][p] == k;
                            assert(cl1[o].contains(cl1[i][p]));
                            assert(cl2[o] == cl1[o]);
                            assert(cl2[o].contains(k));
                        } else if c == last {
                            assert(cl2[i] == cl1[last]);
                            assert(cl2[i].contains(k));
                        } else {
                            assert(cl2[c] == cl1[c]);
                            assert(cl2[c].contains(k));
                        }
                    }
                }
            }
        } else {
            proof {
                assert(cl1[i] == cl0[i]);
                assert forall|c: int| 0 <= c < cl1.len() implies #[trigger] self.rep(c) == old(self).rep(c) by {
                    assert(cl1[c][0] == cl0[c][0]);
                }
                assert forall|a: int, b: int|
                    0 <= a < b < cl1.len() && a < self.outer implies self.differ@.contains(
                        (#[trigger] self.rep(a), #[trigger] self.rep(b)),
                    ) by {
                    assert(self.rep(a) == old(self).rep(a));
                    assert(self.rep(b) == old(self).rep(b));
                }
                assert forall|b: int|
                    self.outer < b < self.inner && b < cl1.len() implies self.differ@.contains(
                        (self.rep(self.outer as int), #[trigger] self.rep(b)),
                    ) by {
                    assert(self.rep(o) == old(self).rep(o));
                    assert(self.rep(b) == old(self).rep(b));
                }
            }
        }
    }

    /// Whether every pair of clusters has been settled.
    pub fn is_done(&self) -> (r: bool)
        requires
            self.wf(),
        ensures
            r == (self.next_step() is Done),
    {
        !self.linking && self.inner >= self.clusters.len()
    }

    /// The number of records in the bucket.
    pub fn len(&self) -> (r: usize)
        ensures
            r == self.records_view().len(),
    {
        self.records.len()
    }

    /// Record `k` of the bucket.
    pub fn record(&self, k: usize) -> (r: &PathWithMetadata)
        requires
            k < self.records_view().len(),
        ensures
            *r == self.records_view()[k as int],
    {
        &self.records[k]
    }

    /// Gives the records back, with the metadata of relinked ones refreshed.
    pub fn into_records(self) -> (r: Vec<PathWithMetadata>)
        ensures
            r@ == self.records_view(),
    {
        self.records
    }

    /// Reporting more pairs as equal keeps every past link justified.
    proof fn lemma_justified_more_same(&self, fewer: Set<(usize, usize)>)
        requires
            fewer.subset_of(self.same@),
            links_justified(self.initial@, fewer, self.linked@),
        ensures
            links_justified(self.initial@, self.same@, self.linked@),
    {
        assert forall|pair: (usize, usize)| #[trigger] self.linked@.contains(pair) implies exists|q: usize|
            #[trigger] self.same@.contains((pair.0, q)) && self.initial@[pair.1 as int].same_inode(
                self.initial@[q as int],
            ) by {
            let q = choose|q: usize|
                #[trigger] fewer.contains((pair.0, q)) && self.initial@[pair.1 as int].same_inode(
                    self.initial@[q as int],
                );
            assert(self.same@.contains((pair.0, q)));
        }
    }

    /// The engine's invariant: every record is in a cluster or skipped;
    /// every pair of clusters before the current one was reported to differ;
    /// clusters not yet used as the keeping side hold one inode each; and
    /// every link is justified by a report of equal contents.
    pub closed spec fn wf(&self) -> bool {
        let cl = self.cl();
        let n = self.records@.len();
        let len = cl.len();
        let initial = self.initial@;
        &&& initial.len() == n
        &&& forall|c: int| 0 <= c < len ==> #[trigger] cl[c].len() > 0
        &&& forall|c: int, p: int|
            #![trigger cl[c][p]]
            0 <= c < len && 0 <= p < cl[c].len() ==> cl[c][p] < n
        &&& self.outer < self.inner
        &&& (self.inner >= len ==> self.outer + 2 >= len && !self.linking)
        &&& (self.linking ==> {
            &&& self.inner < len
            &&& self.next < cl[self.inner as int].len()
            &&& self.same@.contains((self.rep(self.outer as int), self.rep(self.inner as int)))
            &&& forall|p: int|
                0 <= p < self.next ==> cl[self.outer as int].contains(
                    #[trigger] cl[self.inner as int][p],
                ) || self.skipped@.contains(cl[self.inner as int][p])
        })
        &&& forall|a: int, b: int|
            0 <= a < b < len && a < self.outer ==> self.differ@.contains(
                (#[trigger] self.rep(a), #[trigger] self.rep(b)),
            )
        &&& forall|b: int|
            self.outer < b < self.inner && b < len ==> self.differ@.contains(
                (self.rep(self.outer as int), #[trigger] self.rep(b)),
            )
        &&& forall|c: int, p: int|
            #![trigger cl[c][p]]
            self.outer < c < len && 0 <= p < cl[c].len() ==> initial[cl[c][p] as int].same_inode(
                initial[cl[c][0] as int],
            )
        &&& forall|c: int, p: int|
            #![trigger cl[c][p]]
            0 <= c < len && 0 <= p < cl[c].len() ==> initial[cl[c][p] as int].same_inode(
                initial[cl[c][0] as int],
            ) || self.linked@.contains((cl[c][0], cl[c][p]))
        &&& forall|a: int, b: int, q: int|
            #![trigger cl[a][0], cl[b][q]]
            0 <= a < len && self.outer < b < len && a != b && 0 <= q < cl[b].len() ==> !initial[cl[a][0] as int].same_inode(
                initial[cl[b][q] as int],
            )
        &&& links_justified(initial, self.same@, self.linked@)
        &&& forall|a: int, b: int|
            0 <= a < len && 0 <= b < len && a != b ==> !initial[#[trigger] cl[a][0] as int].same_inode(
                initial[#[trigger] cl[b][0] as int],
            )
        &&& forall|a: int, b: int, p: int, q: int|
            0 <= a < b < len && 0 <= p < cl[a].len() && 0 <= q < cl[b].len() && #[trigger] cl[a][p]
                == #[trigger] cl[b][q] ==> self.linking && a == self.outer && b == self.inner && p >= 1 && q
                < self.next
        &&& forall|c: int, p: int, q: int|
            0 <= c < len && 0 <= p < cl[c].len() && 0 <= q < cl[c].len() && p != q ==> #[trigger] cl[c][p]
                != #[trigger] cl[c][q]
        &&& forall|pair: (usize, usize)| #[trigger] self.same@.contains(pair) ==> self.keepers@.contains(pair.0)
        &&& forall|pair: (usize, usize)| #[trigger] self.differ@.contains(pair) ==> self.keepers@.contains(pair.0)
        &&& forall|pair: (usize, usize)| #[trigger] self.linked@.contains(pair) ==> self.keepers@.contains(pair.0)
            && self.handled@.contains(pair.1)
        &&& forall|k: usize| #[trigger] self.skipped@.contains(k) ==> self.handled@.contains(k)
        &&& forall|c: int, q: int|
            #![trigger cl[c][q]]
            self.outer < c < len && 0 <= q < cl[c].len() ==> !self.keepers@.contains(cl[c][q])
        &&& forall|y: usize|
            #[trigger] self.same@.contains((self.rep(self.outer as int), y)) ==> self.met@.contains(y)
        &&& forall|y: usize|
            #[trigger] self.differ@.contains((self.rep(self.outer as int), y)) ==> self.met@.contains(y)
        &&& forall|c: int, q: int|
            #![trigger cl[c][q]]
            self.inner <= c < len && 0 <= q < cl[c].len() && self.met@.contains(cl[c][q]) ==> self.linking && c
                == self.inner
        &&& forall|c: int, q: int|
            #![trigger cl[c][q]]
            self.outer < c < len && 0 <= q < cl[c].len() && self.handled@.contains(cl[c][q]) ==> self.linking
                && c == self.inner && q < self.next
        &&& forall|c: int, q: int|
            #![trigger cl[c][q]]
            0 <= c < len && 0 <= q < cl[c].len() && self.skipped@.contains(cl[c][q]) ==> self.linking && c
                == self.inner && q < self.next
        &&& forall|k: usize| k < n ==> self.skipped@.contains(k) || #[trigger] covered(cl, k)
    }
}

/// When the work list is done, every record that was not skipped belongs to
/// a cluster; every member of a cluster shares an inode with its
/// representative, or was relinked onto it; and every two clusters were
/// compared and reported to differ. Hence two files reported to hold the same
/// bytes end on one inode unless relinking one of them failed.
pub proof fn lemma_done_duplicates_merged(m: &Merger)
    requires
        m.wf(),
        m.next_step() is Done,
    ensures
        forall|k: usize| k < m.records_view().len() ==> m.skipped().contains(k) || #[trigger] covered(m.cl(), k),
        forall|c: int, p: int|
            #![trigger m.cl()[c][p]]
            0 <= c < m.cl().len() && 0 <= p < m.cl()[c].len() ==> m.initial()[m.cl()[c][p] as int].same_inode(
                m.initial()[m.rep(c) as int],
            ) || m.relinked().contains((m.rep(c), m.cl()[c][p])),
        forall|a: int, b: int|
            0 <= a < b < m.cl().len() ==> m.reported_differ().contains((#[trigger] m.rep(a), #[trigger] m.rep(b))),
        forall|a: int, b: int|
            0 <= a < m.cl().len() && 0 <= b < m.cl().len() && a != b ==> !m.initial()[#[trigger] m.rep(
                a,
            ) as int].same_inode(m.initial()[#[trigger] m.rep(b) as int]),
{
}

/// Between link phases a record whose relinking failed belongs to no
/// cluster: it is never compared or linked again.
pub proof fn lemma_skipped_in_no_cluster(m: &Merger)
    requires
        m.wf(),
        !m.is_linking(),
    ensures
        forall|k: usize| #[trigger] m.skipped().contains(k) ==> !covered(m.cl(), k),
{
    assert forall|k: usize| #[trigger] m.skipped().contains(k) implies !covered(m.cl(), k) by {
        if covered(m.cl(), k) {
            let c = choose|c: int| 0 <= c < m.cl().len() && #[trigger] m.cl()[c].contains(k);
            let q = choose|q: int| 0 <= q < m.cl()[c].len() && m.cl()[c][q] == k;
            assert(m.skipped().contains(m.cl()[c][q]));
        }
    }
}

/// A file is only ever relinked onto `keep` when it shared an inode with a
/// file that was reported to hold the same bytes as `keep`: files with
/// different contents are never merged.
pub proof fn lemma_links_only_duplicates(m: &Merger)
    requires
        m.wf(),
    ensures
        links_justified(m.initial(), m.reported_same(), m.relinked()),
{
}

/// When no comparison has reported equal contents, nothing was relinked. A
/// second run over files that are already merged finds no two clusters with
/// the same bytes, and so links nothing.
pub proof fn lemma_no_same_no_links(m: &Merger)
    requires
        m.wf(),
        m.reported_same() == Set::<(usize, usize)>::empty(),
    ensures
        m.relinked() == Set::<(usize, usize)>::empty(),
{
    assert forall|pair: (usize, usize)| !#[trigger] m.relinked().contains(pair) by {
        if m.relinked().contains(pair) {
            assert(links_justified(m.initial(), m.reported_same(), m.relinked()));
        }
    }
    assert(m.relinked() =~= Set::<(usize, usize)>::empty());
}

} // verus!
