use vstd::prelude::*;
use vstd::string::*;

verus! {

/// The path separator of the normalized, platform-native textual form.
pub open spec fn is_sep(c: char) -> bool {
    c == '/'
}

/// The normalized form of the first `i` characters of `s`: separator runs
/// collapse to one separator, a trailing separator run disappears, a
/// leading separator is kept (an absolute path stays absolute), and every
/// other character is kept as written.  `.` and `..` components are kept:
/// normalization is purely syntactic and never consults the filesystem.
pub open spec fn norm_prefix(s: Seq<char>, i: int) -> Seq<char>
    decreases i,
{
    if i <= 0 {
        if s.len() > 0 && is_sep(s[0]) {
            seq!['/']
        } else {
            Seq::<char>::empty()
        }
    } else {
        let acc = norm_prefix(s, i - 1);
        let c = s[i - 1];
        if is_sep(c) {
            acc
        } else if i - 1 > 0 && is_sep(s[i - 2]) && acc.len() > 0 && !is_sep(acc.last()) {
            acc + seq!['/'] + seq![c]
        } else {
            acc.push(c)
        }
    }
}

/// The canonical textual form of a path string.
pub open spec fn spec_normalize(s: Seq<char>) -> Seq<char> {
    norm_prefix(s, s.len() as int)
}

/// Relies on `String: FromIterator<char>` (via `Iterator::collect`):
/// collecting characters yields the string holding exactly those
/// characters in order.
#[verifier::external_body]
fn chars_to_string(cs: &Vec<char>) -> (r: String)
    ensures
        r@ == cs@,
{
    cs.iter().collect()
}

/// Canonicalizes a path string so that different spellings of the same
/// path give the same cache key.  Purely syntactic: no symlink is
/// resolved, no `.`/`..` collapsed, nothing read from disk.
pub fn normalize_path_string(path: &str) -> (r: String)
    ensures
        r@ == spec_normalize(path@),
{
    let n = path.unicode_len();
    let mut out: Vec<char> = Vec::new();
    if n > 0 && path.get_char(0) == '/' {
        out.push('/');
    }
    proof {
        assert(out@ =~= norm_prefix(path@, 0));
    }
    let mut i: usize = 0;
    while i < n
        invariant
            n == path@.len(),
            i <= n,
            out@ == norm_prefix(path@, i as int),
        decreases n - i,
    {
        let c = path.get_char(i);
        if c == '/' {
            // separators are emitted only in front of a later component
        } else if i > 0 && path.get_char(i - 1) == '/' && out.len() > 0 && out[out.len() - 1]
            != '/' {
            out.push('/');
            out.push(c);
            proof {
                assert(out@ =~= norm_prefix(path@, i + 1));
            }
        } else {
            out.push(c);
        }
        i += 1;
    }
    chars_to_string(&out)
}

/// `norm_prefix` reads only the first `i` characters, so two strings that
/// agree on a prefix normalize that prefix identically.
proof fn lemma_norm_prefix_agree(s1: Seq<char>, s2: Seq<char>, i: int)
    requires
        i <= s1.len(),
        i <= s2.len(),
        forall|j: int| 0 <= j < i ==> s1[j] == s2[j],
        s1.len() > 0 ==> s2.len() > 0 && s1[0] == s2[0],
        s2.len() > 0 ==> s1.len() > 0,
    ensures
        norm_prefix(s1, i) == norm_prefix(s2, i),
    decreases i,
{
    if i > 0 {
        lemma_norm_prefix_agree(s1, s2, i - 1);
    }
}

/// A trailing separator never changes the cache key of a nonempty path.
pub proof fn lemma_normalize_trailing_sep(s: Seq<char>)
    requires
        s.len() > 0,
    ensures
        spec_normalize(s.push('/')) == spec_normalize(s),
{
    let t = s.push('/');
    lemma_norm_prefix_agree(t, s, s.len() as int);
}

/// Writing a separator once or twice spells the same path, so both
/// spellings normalize to the same cache key.
pub proof fn lemma_normalize_double_sep(a: Seq<char>, b: Seq<char>)
    ensures
        spec_normalize(a + seq!['/', '/'] + b) == spec_normalize(a + seq!['/'] + b),
{
    let u = a + seq!['/', '/'] + b;
    let v = a + seq!['/'] + b;
    assert(u.len() == a.len() as int + 2 + b.len());
    assert(v.len() == a.len() as int + 1 + b.len());
    lemma_norm_double_step(a, b, b.len() as int);
    assert(spec_normalize(u) == norm_prefix(u, a.len() as int + 2 + b.len()));
    assert(spec_normalize(v) == norm_prefix(v, a.len() as int + 1 + b.len()));
}

/// After the doubled separator, both spellings march through `b` in
/// lockstep with equal accumulators.
proof fn lemma_norm_double_step(a: Seq<char>, b: Seq<char>, k: int)
    requires
        0 <= k <= b.len(),
    ensures
        norm_prefix(a + seq!['/', '/'] + b, a.len() as int + 2 + k) == norm_prefix(
            a + seq!['/'] + b,
            a.len() as int + 1 + k,
        ),
    decreases k,
{
    let u = a + seq!['/', '/'] + b;
    let v = a + seq!['/'] + b;
    if k == 0 {
        // both ends of the separator run leave the accumulator of the
        // common prefix `a` unchanged
        lemma_norm_prefix_agree(u, v, a.len() as int);
        assert(u[a.len() as int] == '/');
        assert(u[a.len() as int + 1] == '/');
        assert(v[a.len() as int] == '/');
        assert(norm_prefix(u, a.len() as int + 1) == norm_prefix(u, a.len() as int));
        assert(norm_prefix(u, a.len() as int + 2) == norm_prefix(u, a.len() as int + 1));
        assert(norm_prefix(v, a.len() as int + 1) == norm_prefix(v, a.len() as int));
    } else {
        lemma_norm_double_step(a, b, k - 1);
        assert(u[a.len() as int + 2 + k - 1] == b[k - 1]);
        assert(v[a.len() as int + 1 + k - 1] == b[k - 1]);
        if k - 1 > 0 {
            assert(u[a.len() as int + 2 + k - 2] == b[k - 2]);
            assert(v[a.len() as int + 1 + k - 2] == b[k - 2]);
        } else {
            assert(u[a.len() as int + 2 + k - 2] == '/');
            assert(v[a.len() as int + 1 + k - 2] == '/');
        }
    }
}

} // verus!
