use crate::record::Config;
use vstd::prelude::*;
use vstd::string::{StrSliceExecFns, StringExecFns};

verus! {

/// The length of the longest common prefix of `a` and `b`.
pub open spec fn common_prefix_len(a: Seq<char>, b: Seq<char>) -> nat
    decreases a.len(),
{
    if a.len() == 0 || b.len() == 0 || a[0] != b[0] {
        0
    } else {
        1 + common_prefix_len(a.drop_first(), b.drop_first())
    }
}

/// The length of the longest common suffix of `a` and `b`.
pub open spec fn common_suffix_len(a: Seq<char>, b: Seq<char>) -> nat {
    common_prefix_len(a.reverse(), b.reverse())
}

proof fn lemma_common_prefix_len_bound(a: Seq<char>, b: Seq<char>)
    ensures
        common_prefix_len(a, b) <= a.len(),
        common_prefix_len(a, b) <= b.len(),
    decreases a.len(),
{
    if a.len() > 0 && b.len() > 0 && a[0] == b[0] {
        lemma_common_prefix_len_bound(a.drop_first(), b.drop_first());
    }
}

/// `n` is where the first difference of `a` and `b` stands.
proof fn lemma_common_prefix_len(a: Seq<char>, b: Seq<char>, n: int)
    requires
        0 <= n <= a.len(),
        n <= b.len(),
        forall|k: int| 0 <= k < n ==> a[k] == b[k],
        n == a.len() || n == b.len() || a[n] != b[n],
    ensures
        n == common_prefix_len(a, b),
    decreases n,
{
    if n > 0 {
        assert(a[0] == b[0]);
        assert forall|k: int| 0 <= k < n - 1 implies a.drop_first()[k] == b.drop_first()[k] by {
            assert(a[k + 1] == b[k + 1]);
        }
        lemma_common_prefix_len(a.drop_first(), b.drop_first(), n - 1);
    }
}

/// The longest common prefix of the two strings, counted in characters.
pub fn common_prefix<'a>(s1: &'a str, s2: &'a str) -> (r: &'a str)
    ensures
        r@ == s1@.subrange(0, common_prefix_len(s1@, s2@) as int),
{
    let n1 = s1.unicode_len();
    let n2 = s2.unicode_len();
    let mut k: usize = 0;
    while k < n1 && k < n2 && s1.get_char(k) == s2.get_char(k)
        invariant
            n1 == s1@.len(),
            n2 == s2@.len(),
            k <= n1,
            k <= n2,
            forall|t: int| 0 <= t < k ==> s1@[t] == s2@[t],
        decreases n1 - k,
    {
        k += 1;
    }
    proof {
        lemma_common_prefix_len(s1@, s2@, k as int);
    }
    s1.substring_char(0, k)
}

/// The longest common suffix of the two strings, counted in characters.
pub fn common_suffix<'a>(s1: &'a str, s2: &'a str) -> (r: &'a str)
    ensures
        r@ == s1@.subrange(s1@.len() - common_suffix_len(s1@, s2@), s1@.len() as int),
{
    let n1 = s1.unicode_len();
    let n2 = s2.unicode_len();
    let mut k: usize = 0;
    while k < n1 && k < n2 && s1.get_char(n1 - 1 - k) == s2.get_char(n2 - 1 - k)
        invariant
            n1 == s1@.len(),
            n2 == s2@.len(),
            k <= n1,
            k <= n2,
            forall|t: int| 0 <= t < k ==> s1@.reverse()[t] == s2@.reverse()[t],
        decreases n1 - k,
    {
        assert(s1@.reverse()[k as int] == s1@[n1 - 1 - k]);
        assert(s2@.reverse()[k as int] == s2@[n2 - 1 - k]);
        k += 1;
    }
    proof {
        let a = s1@.reverse();
        let b = s2@.reverse();
        if k < n1 && k < n2 {
            assert(a[k as int] == s1@[n1 - 1 - k]);
            assert(b[k as int] == s2@[n2 - 1 - k]);
        }
        lemma_common_prefix_len(a, b, k as int);
    }
    s1.substring_char(n1 - k, n1)
}

/// How `shlex` quotes a word for a POSIX shell.
pub uninterp spec fn shell_quoted(s: Seq<char>) -> Seq<char>;

/// Relies on `shlex::try_quote`: it fails only on a nul character, and
/// otherwise returns the word quoted for a shell, a function of the word
/// alone.
#[verifier::external_body]
fn quote(s: &str) -> (r: String)
    requires
        !s@.contains('\0'),
    ensures
        r@ == shell_quoted(s@),
{
    shlex::try_quote(s).unwrap().into_owned()
}

pub open spec fn max_int(a: int, b: int) -> int {
    if a >= b {
        a
    } else {
        b
    }
}

/// Two paths as one line of output. In brace notation a common prefix or
/// suffix longer than two characters is written once, around `{a,b}`.
pub open spec fn pair_text(f1: Seq<char>, f2: Seq<char>, no_brace: bool) -> Seq<char> {
    let np = common_prefix_len(f1, f2) as int;
    let ns = common_suffix_len(f1, f2) as int;
    let prefix = f1.subrange(0, np);
    let suffix = f1.subrange(f1.len() - ns, f1.len() as int);
    if no_brace {
        shell_quoted(f1) + "  "@ + shell_quoted(f2)
    } else if np > 2 && ns > 2 {
        shell_quoted(prefix) + "{"@ + shell_quoted(f1.subrange(np, max_int(np, f1.len() - ns)))
            + ","@ + shell_quoted(f2.subrange(np, max_int(np, f2.len() - ns))) + "}"@
            + shell_quoted(suffix)
    } else if np > 2 {
        shell_quoted(prefix) + "{"@ + shell_quoted(f1.subrange(np, f1.len() as int)) + ","@
            + shell_quoted(f2.subrange(np, f2.len() as int)) + "}"@
    } else if ns > 2 {
        "{"@ + shell_quoted(f1.subrange(0, f1.len() - ns)) + ","@ + shell_quoted(
            f2.subrange(0, f2.len() - ns),
        ) + "}"@ + shell_quoted(suffix)
    } else {
        shell_quoted(f1) + " <-> "@ + shell_quoted(f2)
    }
}

proof fn lemma_part_has_no_nul(s: Seq<char>, a: int, b: int)
    requires
        !s.contains('\0'),
        0 <= a <= b <= s.len(),
    ensures
        !s.subrange(a, b).contains('\0'),
{
    if s.subrange(a, b).contains('\0') {
        let k = choose|k: int| 0 <= k < b - a && s.subrange(a, b)[k] == '\0';
        assert(s[a + k] == '\0');
    }
}

/// Formats a pair of paths for a report line.
pub fn format_pair(f1s: &str, f2s: &str, cfg: &Config) -> (r: String)
    requires
        !f1s@.contains('\0'),
        !f2s@.contains('\0'),
    ensures
        r@ == pair_text(f1s@, f2s@, cfg.no_brace_output),
{
    let n1 = f1s.unicode_len();
    let n2 = f2s.unicode_len();
    if cfg.no_brace_output {
        let mut out = quote(f1s);
        out.append("  ");
        out.append(quote(f2s).as_str());
        return out;
    }
    let prefix = common_prefix(f1s, f2s);
    let suffix = common_suffix(f1s, f2s);
    let np = prefix.unicode_len();
    let ns = suffix.unicode_len();
    proof {
        lemma_common_prefix_len_bound(f1s@, f2s@);
        lemma_common_prefix_len_bound(f1s@.reverse(), f2s@.reverse());
        lemma_part_has_no_nul(f1s@, 0, np as int);
        lemma_part_has_no_nul(f1s@, n1 - ns, n1 as int);
    }
    if np > 2 && ns > 2 {
        let e1 = if np > n1 - ns { np } else { n1 - ns };
        let e2 = if np > n2 - ns { np } else { n2 - ns };
        proof {
            lemma_part_has_no_nul(f1s@, np as int, e1 as int);
            lemma_part_has_no_nul(f2s@, np as int, e2 as int);
        }
        let mut out = quote(prefix);
        out.append("{");
        out.append(quote(f1s.substring_char(np, e1)).as_str());
        out.append(",");
        out.append(quote(f2s.substring_char(np, e2)).as_str());
        out.append("}");
        out.append(quote(suffix).as_str());
        out
    } else if np > 2 {
        proof {
            lemma_part_has_no_nul(f1s@, np as int, n1 as int);
            lemma_part_has_no_nul(f2s@, np as int, n2 as int);
        }
        let mut out = quote(prefix);
        out.append("{");
        out.append(quote(f1s.substring_char(np, n1)).as_str());
        out.append(",");
        out.append(quote(f2s.substring_char(np, n2)).as_str());
        out.append("}");
        out
    } else if ns > 2 {
        proof {
            lemma_part_has_no_nul(f1s@, 0, n1 - ns);
            lemma_part_has_no_nul(f2s@, 0, n2 - ns);
        }
        let mut out = String::from_str("{");
        out.append(quote(f1s.substring_char(0, n1 - ns)).as_str());
        out.append(",");
        out.append(quote(f2s.substring_char(0, n2 - ns)).as_str());
        out.append("}");
        out.append(quote(suffix).as_str());
        out
    } else {
        let mut out = quote(f1s);
        out.append(" <-> ");
        out.append(quote(f2s).as_str());
        out
    }
}

} // verus!
