use crate::record::{FileKind, PathWithMetadata};
use vstd::prelude::*;
use vstd::string::StrSliceExecFns;

verus! {

/// The bounds `[start, end)` of the chunks that `split_vec` cuts from
/// `input[i..]`, when the current chunk began at `start`.
///
/// A delimiter ends the current chunk, unless the chunk is still empty: then
/// the delimiter is taken as its first item.
pub open spec fn split_bounds(input: Seq<Seq<char>>, delim: Seq<char>, start: int, i: int) -> Seq<(int, int)>
    decreases input.len() - i,
{
    if i >= input.len() {
        if start < input.len() {
            seq![(start, input.len() as int)]
        } else {
            seq![]
        }
    } else if input[i] == delim && i != start {
        seq![(start, i)] + split_bounds(input, delim, i + 1, i + 1)
    } else {
        split_bounds(input, delim, start, i + 1)
    }
}

pub open spec fn strings_view(input: Seq<String>) -> Seq<Seq<char>> {
    input.map_values(|s: String| s@)
}

/// `chunk` holds `input[a..b]`, by reference.
pub open spec fn is_chunk(chunk: Seq<&String>, input: Seq<String>, a: int, b: int) -> bool {
    &&& 0 <= a <= b <= input.len()
    &&& chunk.len() == b - a
    &&& forall|t: int| 0 <= t < chunk.len() ==> *#[trigger] chunk[t] == input[a + t]
}

proof fn lemma_split_bounds_nonempty(input: Seq<Seq<char>>, delim: Seq<char>, start: int, i: int)
    requires
        0 <= start <= i,
    ensures
        forall|k: int|
            0 <= k < split_bounds(input, delim, start, i).len() ==> start <= (#[trigger] split_bounds(
                input,
                delim,
                start,
                i,
            )[k]).0 < split_bounds(input, delim, start, i)[k].1 <= input.len(),
    decreases input.len() - i,
{
    if i >= input.len() {
    } else if input[i] == delim && i != start {
        lemma_split_bounds_nonempty(input, delim, i + 1, i + 1);
        let rest = split_bounds(input, delim, i + 1, i + 1);
        let all = split_bounds(input, delim, start, i);
        assert(all == seq![(start, i)] + rest);
        assert forall|k: int| 0 <= k < all.len() implies start <= (#[trigger] all[k]).0 < all[k].1 <= input.len() by {
            if k > 0 {
                assert(all[k] == rest[k - 1]);
            }
        }
    } else {
        lemma_split_bounds_nonempty(input, delim, start, i + 1);
        assert(split_bounds(input, delim, start, i) == split_bounds(input, delim, start, i + 1));
    }
}

/// Cuts `input` into chunks at each `delimiter`. Each chunk is non-empty:
/// a delimiter met at the start of a chunk becomes part of it.
pub fn split_vec<'a>(input: &'a [String], delimiter: &String) -> (r: Vec<Vec<&'a String>>)
    ensures
        r@.len() == split_bounds(strings_view(input@), delimiter@, 0, 0).len(),
        forall|k: int|
            0 <= k < r@.len() ==> is_chunk(
                #[trigger] r@[k]@,
                input@,
                split_bounds(strings_view(input@), delimiter@, 0, 0)[k].0,
                split_bounds(strings_view(input@), delimiter@, 0, 0)[k].1,
            ),
        forall|k: int| 0 <= k < r@.len() ==> (#[trigger] r@[k]@).len() > 0,
{
    let ghost view = strings_view(input@);
    let ghost all = split_bounds(view, delimiter@, 0, 0);
    let mut result: Vec<Vec<&String>> = Vec::new();
    let mut chunk_start: usize = 0;
    let mut i: usize = 0;
    while i < input.len()
        invariant
            view == strings_view(input@),
            all == split_bounds(view, delimiter@, 0, 0),
            chunk_start <= i <= input@.len(),
            all == Seq::new(result@.len(), |k: int| all[k]) + split_bounds(view, delimiter@, chunk_start as int, i as int),
            forall|k: int| 0 <= k < result@.len() ==> is_chunk(#[trigger] result@[k]@, input@, all[k].0, all[k].1),
        decreases input@.len() - i,
    {
        if input[i] == *delimiter && i != chunk_start {
            assert(view[i as int] == delimiter@);
            let mut chunk: Vec<&String> = Vec::new();
            let mut t: usize = chunk_start;
            while t < i
                invariant
                    chunk_start <= t <= i < input@.len(),
                    is_chunk(chunk@, input@, chunk_start as int, t as int),
                decreases i - t,
            {
                chunk.push(&input[t]);
                t += 1;
            }
            let ghost before = result@;
            result.push(chunk);
            proof {
                let rest = split_bounds(view, delimiter@, i + 1, i + 1);
                assert(split_bounds(view, delimiter@, chunk_start as int, i as int) == seq![(chunk_start as int, i as int)] + rest);
                assert(all[before.len() as int] == (chunk_start as int, i as int));
                assert(all =~= Seq::new(result@.len(), |k: int| all[k]) + rest);
                assert forall|k: int| 0 <= k < result@.len() implies is_chunk(#[trigger] result@[k]@, input@, all[k].0, all[k].1) by {
                    if k < before.len() {
                        assert(result@[k] == before[k]);
                    }
                }
            }
            chunk_start = i + 1;
        } else {
            proof {
                if view[i as int] == delimiter@ {
                    assert(input@[i as int]@ == delimiter@);
                }
            }
        }
        i += 1;
    }
    if chunk_start < input.len() {
        let mut chunk: Vec<&String> = Vec::new();
        let mut t: usize = chunk_start;
        while t < input.len()
            invariant
                chunk_start <= t <= input@.len(),
                is_chunk(chunk@, input@, chunk_start as int, t as int),
            decreases input@.len() - t,
        {
            chunk.push(&input[t]);
            t += 1;
        }
        let ghost before = result@;
        result.push(chunk);
        proof {
            assert(all =~= Seq::new(result@.len(), |k: int| all[k]));
            assert forall|k: int| 0 <= k < result@.len() implies is_chunk(#[trigger] result@[k]@, input@, all[k].0, all[k].1) by {
                if k < before.len() {
                    assert(result@[k] == before[k]);
                }
            }
        }
    } else {
        assert(all =~= Seq::new(result@.len(), |k: int| all[k]));
    }
    proof {
        lemma_split_bounds_nonempty(view, delimiter@, 0, 0);
    }
    result
}

fn has_nul(s: &String) -> (r: bool)
    ensures
        r == s@.contains('\0'),
{
    let t = s.as_str();
    let n = t.unicode_len();
    let mut k: usize = 0;
    while k < n
        invariant
            t@ == s@,
            n == s@.len(),
            k <= n,
            forall|j: int| 0 <= j < k ==> s@[j] != '\0',
        decreases n - k,
    {
        if t.get_char(k) == '\0' {
            assert(s@[k as int] == '\0');
            return true;
        }
        k += 1;
    }
    false
}

/// Cuts the targets into target sets at each `separator`. No path can hold
/// a nul character: the index of the first target that does is returned as
/// the error.
pub fn obtain_run_targets<'a>(arg_targets: &'a Vec<String>, separator: &String) -> (r: Result<
    Vec<Vec<&'a String>>,
    usize,
>)
    ensures
        match r {
            Err(i) => i < arg_targets@.len() && arg_targets@[i as int]@.contains('\0') && forall|j: int|
                0 <= j < i ==> !(#[trigger] arg_targets@[j])@.contains('\0'),
            Ok(sets) => {
                &&& forall|j: int|
                    0 <= j < arg_targets@.len() ==> !(#[trigger] arg_targets@[j])@.contains('\0')
                &&& sets@.len() == split_bounds(strings_view(arg_targets@), separator@, 0, 0).len()
                &&& forall|k: int|
                    0 <= k < sets@.len() ==> is_chunk(
                        #[trigger] sets@[k]@,
                        arg_targets@,
                        split_bounds(strings_view(arg_targets@), separator@, 0, 0)[k].0,
                        split_bounds(strings_view(arg_targets@), separator@, 0, 0)[k].1,
                    ) && sets@[k]@.len() > 0
            },
        },
{
    let mut i: usize = 0;
    while i < arg_targets.len()
        invariant
            i <= arg_targets@.len(),
            forall|j: int| 0 <= j < i ==> !(#[trigger] arg_targets@[j])@.contains('\0'),
        decreases arg_targets@.len() - i,
    {
        if has_nul(&arg_targets[i]) {
            return Err(i);
        }
        i += 1;
    }
    Ok(split_vec(arg_targets.as_slice(), separator))
}

/// The records of `set` that are not symlinks, in order.
pub open spec fn without_symlinks(set: Seq<PathWithMetadata>) -> Seq<PathWithMetadata>
    decreases set.len(),
{
    if set.len() == 0 {
        seq![]
    } else {
        (if set[0].md.kind == FileKind::Symlink {
            seq![]
        } else {
            seq![set[0]]
        }) + without_symlinks(set.drop_first())
    }
}

/// Each target set without its symlinks; sets left empty are dropped.
pub open spec fn run_paths_of(sets: Seq<Seq<PathWithMetadata>>) -> Seq<Seq<PathWithMetadata>>
    decreases sets.len(),
{
    if sets.len() == 0 {
        seq![]
    } else {
        let kept = without_symlinks(sets[0]);
        (if kept.len() > 0 {
            seq![kept]
        } else {
            seq![]
        }) + run_paths_of(sets.drop_first())
    }
}

pub open spec fn sets_view(sets: Seq<Vec<PathWithMetadata>>) -> Seq<Seq<PathWithMetadata>> {
    sets.map_values(|v: Vec<PathWithMetadata>| v@)
}

fn drop_symlinks(set: Vec<PathWithMetadata>) -> (r: Vec<PathWithMetadata>)
    ensures
        r@ == without_symlinks(set@),
{
    let mut rest = set;
    let mut kept: Vec<PathWithMetadata> = Vec::new();
    while rest.len() > 0
        invariant
            kept@ + without_symlinks(rest@) == without_symlinks(set@),
        decreases rest@.len(),
    {
        let ghost before = rest@;
        let pwmd = rest.remove(0);
        assert(before.drop_first() =~= rest@);
        if pwmd.md.kind != FileKind::Symlink {
            kept.push(pwmd);
            assert(kept@ + without_symlinks(rest@) =~= kept@.drop_last() + without_symlinks(before));
        } else {
            assert(kept@ + without_symlinks(rest@) =~= kept@ + without_symlinks(before));
        }
    }
    assert(kept@ =~= kept@ + without_symlinks(rest@));
    kept
}

/// The target sets as the engine takes them: symlinks are inert, and a set
/// left with no record is dropped.
pub fn obtain_run_paths(sets: Vec<Vec<PathWithMetadata>>) -> (r: Vec<Vec<PathWithMetadata>>)
    ensures
        sets_view(r@) == run_paths_of(sets_view(sets@)),
{
    let mut rest = sets;
    let mut out: Vec<Vec<PathWithMetadata>> = Vec::new();
    while rest.len() > 0
        invariant
            sets_view(out@) + run_paths_of(sets_view(rest@)) == run_paths_of(sets_view(sets@)),
        decreases rest@.len(),
    {
        let ghost before = rest@;
        let set = rest.remove(0);
        assert(sets_view(before).drop_first() =~= sets_view(rest@));
        assert(sets_view(before)[0] == set@);
        let kept = drop_symlinks(set);
        if kept.len() > 0 {
            let ghost out_before = out@;
            out.push(kept);
            assert(sets_view(out@) =~= sets_view(out_before).push(kept@));
            assert(sets_view(out@) + run_paths_of(sets_view(rest@)) =~= sets_view(out_before) + run_paths_of(
                sets_view(before),
            ));
        } else {
            assert(run_paths_of(sets_view(before)) =~= run_paths_of(sets_view(rest@)));
        }
    }
    assert(sets_view(rest@) =~= Seq::<Seq<PathWithMetadata>>::empty());
    assert(sets_view(out@) =~= sets_view(out@) + run_paths_of(sets_view(rest@)));
    out
}

/// The lines before the first failed read.
pub open spec fn lines_before_error(lines: Seq<Result<String, String>>) -> Seq<String>
    decreases lines.len(),
{
    if lines.len() == 0 {
        seq![]
    } else {
        match lines[0] {
            Ok(line) => seq![line] + lines_before_error(lines.drop_first()),
            Err(_) => seq![],
        }
    }
}

/// The first failed read, if any.
pub open spec fn first_error(lines: Seq<Result<String, String>>) -> Option<String>
    decreases lines.len(),
{
    if lines.len() == 0 {
        None
    } else {
        match lines[0] {
            Ok(_) => first_error(lines.drop_first()),
            Err(e) => Some(e),
        }
    }
}

/// Appends the lines read to `dest`, up to the first failed read, whose
/// error is returned.
pub fn read_lines(lines: &Vec<Result<String, String>>, dest: &mut Vec<String>) -> (r: Result<(), String>)
    ensures
        final(dest)@ == old(dest)@ + lines_before_error(lines@),
        r == (match first_error(lines@) {
            Some(e) => Err::<(), String>(e),
            None => Ok(()),
        }),
{
    let mut i: usize = 0;
    assert(lines@.subrange(0, lines@.len() as int) =~= lines@);
    assert(lines@.subrange(0, 0) =~= Seq::<Result<String, String>>::empty());
    assert(dest@ =~= old(dest)@ + lines_before_error(lines@.subrange(0, 0)));
    while i < lines.len()
        invariant
            i <= lines@.len(),
            first_error(lines@.subrange(0, i as int)) is None,
            first_error(lines@) == first_error(lines@.subrange(i as int, lines@.len() as int)),
            lines_before_error(lines@) == lines_before_error(lines@.subrange(0, i as int)) + lines_before_error(
                lines@.subrange(i as int, lines@.len() as int),
            ),
            dest@ == old(dest)@ + lines_before_error(lines@.subrange(0, i as int)),
        decreases lines@.len() - i,
    {
        let ghost tail = lines@.subrange(i as int, lines@.len() as int);
        assert(tail.drop_first() =~= lines@.subrange(i + 1, lines@.len() as int));
        assert(tail[0] == lines@[i as int]);
        match &lines[i] {
            Ok(line) => {
                dest.push(line.clone());
                proof {
                    lemma_lines_extend(lines@, i as int);
                }
            },
            Err(e) => {
                assert(lines_before_error(tail) == Seq::<String>::empty());
                assert(dest@ =~= old(dest)@ + lines_before_error(lines@));
                return Err(e.clone());
            },
        }
        i += 1;
    }
    assert(lines@.subrange(i as int, lines@.len() as int) =~= Seq::<Result<String, String>>::empty());
    assert(lines_before_error(lines@) =~= lines_before_error(lines@.subrange(0, i as int)));
    Ok(())
}

/// Reading one more line that did not fail extends the lines read by it.
proof fn lemma_lines_extend(lines: Seq<Result<String, String>>, i: int)
    requires
        0 <= i < lines.len(),
        lines[i] is Ok,
        first_error(lines.subrange(0, i)) is None,
    ensures
        first_error(lines.subrange(0, i + 1)) is None,
        lines_before_error(lines.subrange(0, i + 1)) == lines_before_error(lines.subrange(0, i)).push(
            lines[i]->Ok_0,
        ),
    decreases i,
{
    if i > 0 {
        let s = lines.subrange(0, i + 1);
        assert(s.drop_first() =~= lines.drop_first().subrange(0, i));
        assert(lines.subrange(0, i).drop_first() =~= lines.drop_first().subrange(0, i - 1));
        lemma_lines_extend(lines.drop_first(), i - 1);
    } else {
        assert(lines.subrange(0, 1).drop_first() =~= Seq::<Result<String, String>>::empty());
        assert(lines.subrange(0, 0) =~= Seq::<Result<String, String>>::empty());
    }
}

} // verus!
