//! Path handling: the filename exclusion rule and root-relative,
//! forward-slash-normalized paths.

use vstd::prelude::*;
use vstd::string::StrSliceExecFns;
use crate::hasher::push_char;

verus! {

/// Whether a path matches the exclusion pattern: the fixed `.peak` suffix.
pub open spec fn is_excluded_spec(p: Seq<char>) -> bool {
    &&& p.len() >= 5
    &&& p[p.len() - 5] == '.'
    &&& p[p.len() - 4] == 'p'
    &&& p[p.len() - 3] == 'e'
    &&& p[p.len() - 2] == 'a'
    &&& p[p.len() - 1] == 'k'
}

/// A file whose name matches the exclusion pattern is skipped during
/// hashing and never appears in a fingerprint map.
pub fn is_excluded(path: &str) -> (r: bool)
    ensures
        r == is_excluded_spec(path@),
{
    let n = path.unicode_len();
    if n < 5 {
        return false;
    }
    path.get_char(n - 5) == '.' && path.get_char(n - 4) == 'p' && path.get_char(n - 3) == 'e'
        && path.get_char(n - 2) == 'a' && path.get_char(n - 1) == 'k'
}

/// One leading path separator, if present, is dropped.
pub open spec fn strip_leading_sep(s: Seq<char>) -> Seq<char> {
    if s.len() > 0 && (s[0] == '/' || s[0] == '\\') {
        s.skip(1)
    } else {
        s
    }
}

/// Back-slash separators become forward slashes.
pub open spec fn normalize_slashes(s: Seq<char>) -> Seq<char> {
    s.map_values(|c: char| if c == '\\' { '/' } else { c })
}

/// The root-relative form of a path: the root prefix is stripped, one
/// leading separator is dropped, and back-slashes become forward slashes.
pub open spec fn rel_path_spec(path: Seq<char>, root: Seq<char>) -> Seq<char> {
    normalize_slashes(strip_leading_sep(path.skip(root.len() as int)))
}

/// No back-slash separator anywhere in the path.
pub open spec fn no_backslash(p: Seq<char>) -> bool {
    forall|i: int| 0 <= i < p.len() ==> p[i] != '\\'
}

/// Law: a relative path never contains a back-slash separator, whatever
/// separators the input path carried.
pub proof fn lemma_rel_path_normalized(path: Seq<char>, root: Seq<char>)
    ensures
        no_backslash(rel_path_spec(path, root)),
{
}

/// Computes the root-relative, forward-slash-normalized form of `path`.
/// Returns `None` exactly when `root` is not a prefix of `path`; the
/// relative paths it produces never contain a back-slash separator.
pub fn relative_path(path: &str, root: &str) -> (r: Option<String>)
    ensures
        r is Some <==> root@.is_prefix_of(path@),
        (r matches Some(v) ==> v@ == rel_path_spec(path@, root@)),
        (r matches Some(v) ==> no_backslash(v@)),
{
    let plen = path.unicode_len();
    let rlen = root.unicode_len();
    if rlen > plen {
        return None;
    }
    let mut i: usize = 0;
    while i < rlen
        invariant
            i <= rlen <= plen,
            plen == path@.len(),
            rlen == root@.len(),
            forall|j: int| 0 <= j < i ==> path@[j] == root@[j],
        decreases rlen - i,
    {
        if path.get_char(i) != root.get_char(i) {
            proof {
                assert(!root@.is_prefix_of(path@)) by {
                    assert(path@.subrange(0, rlen as int)[i as int] == path@[i as int]);
                }
            }
            return None;
        }
        i += 1;
    }
    proof {
        assert(root@ =~= path@.subrange(0, rlen as int));
    }
    let mut start: usize = rlen;
    if start < plen {
        let c0 = path.get_char(start);
        if c0 == '/' || c0 == '\\' {
            start = start + 1;
        }
    }
    let ghost rest: Seq<char> = strip_leading_sep(path@.skip(rlen as int));
    proof {
        assert(rest =~= path@.subrange(start as int, plen as int));
    }
    let mut out = String::new();
    let mut j: usize = start;
    while j < plen
        invariant
            start <= j <= plen,
            plen == path@.len(),
            rest =~= path@.subrange(start as int, plen as int),
            out@ =~= normalize_slashes(rest).subrange(0, j - start),
        decreases plen - j,
    {
        let c = path.get_char(j);
        if c == '\\' {
            push_char(&mut out, '/');
        } else {
            push_char(&mut out, c);
        }
        j += 1;
        proof {
            assert(out@ =~= normalize_slashes(rest).subrange(0, j - start));
        }
    }
    proof {
        assert(out@ =~= normalize_slashes(rest));
    }
    Some(out)
}

} // verus!
