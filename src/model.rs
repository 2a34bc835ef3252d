use crate::cluster::covered;
use crate::merge::{lemma_done_duplicates_merged, lemma_pairs_nonneg, Merger, Outcome, Step};
use crate::record::{metas_of, PathWithMetadata};
use vstd::prelude::*;

verus! {

/// Every cluster member is on the inode its representative was first on,
/// but for the members of the absorbed cluster already relinked.
pub open spec fn on_first_inode(m: Merger) -> bool {
    let cl = m.cl();
    let recs = m.records_view();
    forall|c: int, p: int|
        #![trigger cl[c][p]]
        0 <= c < cl.len() && 0 <= p < cl[c].len() && !(m.is_linking() && c == m.inner_index() && p
            < m.member_index()) ==> recs[cl[c][p] as int].md.same_inode(m.initial()[cl[c][0] as int])
}

/// Every cluster member holds its representative's content.
pub open spec fn on_rep_content(m: Merger, contents: Seq<u64>) -> bool {
    let cl = m.cl();
    forall|c: int, p: int|
        #![trigger cl[c][p]]
        0 <= c < cl.len() && 0 <= p < cl[c].len() ==> contents[cl[c][p] as int] == contents[cl[c][0] as int]
}

/// Runs the engine over one bucket against a model filesystem, in which
/// `contents[k]` names what record `k` holds (records on one inode hold the
/// same), every comparison is answered truthfully and every link succeeds.
/// Returns the records with the metadata the filesystem ends with.
///
/// Afterwards two records are on one inode exactly when they hold the same
/// content, and each record is on an inode that a record of the same
/// content was first on, so no record's content changed. When records with the same content already shared an inode, as
/// after an earlier run, nothing is relinked and every record keeps its
/// metadata.
pub fn run_model(records: Vec<PathWithMetadata>, contents: &Vec<u64>) -> (r: Vec<PathWithMetadata>)
    requires
        contents@.len() == records@.len(),
        forall|x: int, y: int|
            0 <= x < records@.len() && 0 <= y < records@.len() && (#[trigger] records@[x]).md.same_inode(
                (#[trigger] records@[y]).md,
            ) ==> contents@[x] == contents@[y],
    ensures
        r@.len() == records@.len(),
        forall|x: int| 0 <= x < r@.len() ==> (#[trigger] r@[x]).path == records@[x].path,
        forall|x: int, y: int|
            0 <= x < r@.len() && 0 <= y < r@.len() ==> ((#[trigger] r@[x]).md.same_inode(
                (#[trigger] r@[y]).md,
            ) <==> contents@[x] == contents@[y]),
        forall|x: int|
            0 <= x < r@.len() ==> exists|y: int|
                0 <= y < records@.len() && (#[trigger] r@[x]).md.same_inode(records@[y].md) && contents@[y]
                    == contents@[x],
        (forall|x: int, y: int|
            0 <= x < records@.len() && 0 <= y < records@.len() && contents@[x] == contents@[y] ==> (
            #[trigger] records@[x]).md.same_inode((#[trigger] records@[y]).md)) ==> r@ == records@,
{
    let ghost n = records@.len();
    let ghost orig = records@;
    let ghost merged = forall|x: int, y: int|
        0 <= x < orig.len() && 0 <= y < orig.len() && contents@[x] == contents@[y] ==> (
        #[trigger] orig[x]).md.same_inode((#[trigger] orig[y]).md);
    let mut m = Merger::new(records, false);
    proof {
        let cl = m.cl();
        assert(m.initial() == metas_of(orig));
        assert forall|c: int, p: int|
            #![trigger cl[c][p]]
            0 <= c < cl.len() && 0 <= p < cl[c].len() implies contents@[cl[c][p] as int] == contents@[cl[c][0] as int] by {
            assert(m.initial()[cl[c][p] as int] == orig[cl[c][p] as int].md);
            assert(m.initial()[cl[c][0] as int] == orig[cl[c][0] as int].md);
        }
    }
    while !m.is_done()
        invariant
            m.wf(),
            m.shape(),
            !m.is_dry_run(),
            m.records_view().len() == n,
            orig.len() == n,
            contents@.len() == n,
            merged == (forall|x: int, y: int|
                0 <= x < orig.len() && 0 <= y < orig.len() && contents@[x] == contents@[y] ==> (
                #[trigger] orig[x]).md.same_inode((#[trigger] orig[y]).md)),
            m.initial() == metas_of(orig),
            forall|k: int| 0 <= k < n ==> (#[trigger] m.records_view()[k]).path == orig[k].path,
            m.skipped() == Set::<usize>::empty(),
            on_first_inode(m),
            on_rep_content(m, contents@),
            forall|pair: (usize, usize)|
                #[trigger] m.reported_differ().contains(pair) ==> contents@[pair.0 as int] != contents@[pair.1 as int],
            forall|pair: (usize, usize)|
                #[trigger] m.reported_same().contains(pair) ==> contents@[pair.0 as int] == contents@[pair.1 as int],
            merged ==> m.reported_same() == Set::<(usize, usize)>::empty() && m.records_view() == orig,
        decreases m.progress().0, m.progress().1,
    {
        let step = m.action();
        let ghost before = m;
        proof {
            lemma_pairs_nonneg(m.cl().len() - m.outer_index() - 1);
        }
        match step {
            Step::Compare { keep, replace } => {
                proof {
                    let cl = m.cl();
                    assert(cl[m.outer_index()][0] == keep);
                    assert(cl[m.inner_index()][0] == replace);
                    assert(keep < n && replace < n);
                    assert(orig.len() == n);
                    assert(metas_of(orig)[keep as int] == orig[keep as int].md);
                    assert(metas_of(orig)[replace as int] == orig[replace as int].md);
                }
                let same = contents[keep] == contents[replace];
                if same {
                    m.advance(Outcome::Same);
                } else {
                    m.advance(Outcome::Differ);
                }
            },
            Step::Link { keep, replace } => {
                let k = m.record(keep).md;
                let mut md = m.record(replace).md;
                md.dev = k.dev;
                md.ino = k.ino;
                proof {
                    let cl = m.cl();
                    let o = m.outer_index();
                    let i = m.inner_index();
                    assert(cl[o][0] == keep);
                    assert(cl[i][m.member_index()] == replace);
                    assert(keep != replace);
                    assert(m.reported_same().contains((keep, m.rep(i))));
                }
                m.advance(Outcome::Linked(md));
                proof {
                    let cl = before.cl();
                    let o = before.outer_index();
                    let i = before.inner_index();
                    let nx = before.member_index();
                    let recs = before.records_view();
                    let cl2 = m.cl();
                    let recs2 = m.records_view();
                    let grown = cl.update(o, cl[o].push(replace));
                    assert(recs2 == recs.update(replace as int, PathWithMetadata { path: recs[replace as int].path, md }));
                    assert(recs[keep as int].md.same_inode(m.initial()[keep as int]));
                    assert forall|c: int, p: int|
                        #![trigger cl2[c][p]]
                        0 <= c < cl2.len() && 0 <= p < cl2[c].len() && !(m.is_linking() && c == m.inner_index() && p
                            < m.member_index()) implies recs2[cl2[c][p] as int].md.same_inode(m.initial()[cl2[c][0] as int]) by {
                        let d = if nx + 1 < cl[i].len() || c != i { c } else { cl.len() - 1 };
                        assert(cl2[c] == grown[d]);
                        if d == o && p == cl[o].len() {
                            assert(cl2[c][p] == replace);
                        } else {
                            assert(cl2[c][p] == cl[d][p]);
                            assert(cl[d][p] != replace);
                        }
                    }
                }
            },
            _ => {
                proof {
                    assert(false);
                }
            },
        }
        proof {
            lemma_pairs_nonneg(m.cl().len() - m.outer_index() - 1);
        }
    }
    let total = m.len();
    proof {
        lemma_done_duplicates_merged(&m);
        let cl = m.cl();
        let recs = m.records_view();
        assert forall|x: int, y: int|
            0 <= x < n && 0 <= y < n implies (#[trigger] recs[x]).md.same_inode((#[trigger] recs[y]).md)
            <==> contents@[x] == contents@[y] by {
            assert(x < total && y < total);
            assert(covered(cl, x as usize));
            assert(covered(cl, y as usize));
            let cx = choose|c: int| 0 <= c < cl.len() && #[trigger] cl[c].contains(x as usize);
            let px = choose|p: int| 0 <= p < cl[cx].len() && cl[cx][p] == x as usize;
            let cy = choose|c: int| 0 <= c < cl.len() && #[trigger] cl[c].contains(y as usize);
            let py = choose|p: int| 0 <= p < cl[cy].len() && cl[cy][p] == y as usize;
            assert(recs[cl[cx][px] as int].md.same_inode(m.initial()[cl[cx][0] as int]));
            assert(recs[cl[cy][py] as int].md.same_inode(m.initial()[cl[cy][0] as int]));
            assert(contents@[cl[cx][px] as int] == contents@[cl[cx][0] as int]);
            assert(contents@[cl[cy][py] as int] == contents@[cl[cy][0] as int]);
            assert(m.initial()[cl[cx][0] as int] == orig[cl[cx][0] as int].md);
            if cx != cy {
                assert(!m.initial()[m.rep(cx) as int].same_inode(m.initial()[m.rep(cy) as int]));
                if cx < cy {
                    assert(m.reported_differ().contains((m.rep(cx), m.rep(cy))));
                } else {
                    assert(m.reported_differ().contains((m.rep(cy), m.rep(cx))));
                }
            }
        }
    }
    proof {
        let cl = m.cl();
        let recs = m.records_view();
        assert forall|x: int| 0 <= x < n implies exists|y: int|
            0 <= y < orig.len() && (#[trigger] recs[x]).md.same_inode(orig[y].md) && contents@[y]
                == contents@[x] by {
            assert(x < total);
            assert(covered(cl, x as usize));
            let cx = choose|c: int| 0 <= c < cl.len() && #[trigger] cl[c].contains(x as usize);
            let px = choose|p: int| 0 <= p < cl[cx].len() && cl[cx][p] == x as usize;
            assert(recs[cl[cx][px] as int].md.same_inode(m.initial()[cl[cx][0] as int]));
            assert(m.initial()[cl[cx][0] as int] == orig[cl[cx][0] as int].md);
            assert(contents@[cl[cx][px] as int] == contents@[cl[cx][0] as int]);
            let y = cl[cx][0] as int;
            assert(0 <= y < orig.len() && recs[x].md.same_inode(orig[y].md) && contents@[y] == contents@[x]);
        }
    }
    m.into_records()
}

} // verus!
