//! Path arithmetic for project file listings: turning an absolute walk path
//! into the path relative to the project root. Separators are normalised to
//! `/` and the prefix match folds ASCII case, so listings behave the same
//! whichever way the root was spelled.

use vstd::prelude::*;

verus! {

use crate::text::{push_char, starts_with_ci, str_starts_with_ci};
use vstd::string::StrSliceExecFns;

/// One listed file, by its path relative to the project root.
pub struct FileEntry {
    pub path: String,
}

/// A path with every backslash separator turned into a slash.
pub open spec fn normalize_seps(p: Seq<char>) -> Seq<char> {
    p.map_values(|c: char| if c == '\\' { '/' } else { c })
}

/// A path with its trailing slashes removed.
pub open spec fn trim_end_slashes(s: Seq<char>) -> Seq<char>
    decreases s.len(),
{
    if s.len() > 0 && s.last() == '/' {
        trim_end_slashes(s.drop_last())
    } else {
        s
    }
}

/// A path with its leading slashes removed.
pub open spec fn trim_start_slashes(s: Seq<char>) -> Seq<char>
    decreases s.len(),
{
    if s.len() > 0 && s.first() == '/' {
        trim_start_slashes(s.drop_first())
    } else {
        s
    }
}

/// The path of `path` relative to `project_root`, when `path` lies under the
/// root: both are normalised, the root loses its trailing slashes, the match
/// folds ASCII case, and the remainder loses its leading slashes. A path
/// that does not extend the root yields nothing.
pub open spec fn relative_path_spec(root: Seq<char>, path: Seq<char>) -> Option<Seq<char>> {
    let rp = trim_end_slashes(normalize_seps(root));
    let np = normalize_seps(path);
    if starts_with_ci(np, rp) && np.len() > rp.len() {
        Some(trim_start_slashes(np.skip(rp.len() as int)))
    } else {
        None
    }
}

/// Normalise the separators of a path.
pub fn normalize_path(p: &str) -> (r: String)
    ensures
        r@ == normalize_seps(p@),
{
    let len = p.unicode_len();
    let mut out = String::new();
    let mut i: usize = 0;
    while i < len
        invariant
            len == p@.len(),
            i <= len,
            out@ == normalize_seps(p@).take(i as int),
        decreases len - i,
    {
        let c = p.get_char(i);
        if c == '\\' {
            push_char(&mut out, '/');
        } else {
            push_char(&mut out, c);
        }
        proof {
            assert(out@ =~= normalize_seps(p@).take(i + 1));
        }
        i += 1;
    }
    proof {
        assert(normalize_seps(p@).take(len as int) =~= normalize_seps(p@));
    }
    out
}

/// Trailing slashes end exactly where the last non-slash character sits.
proof fn lemma_trim_end_at(s: Seq<char>, e: int)
    requires
        0 <= e <= s.len(),
        forall|m: int| e <= m < s.len() ==> s[m] == '/',
        e > 0 ==> s[e - 1] != '/',
    ensures
        trim_end_slashes(s) == s.take(e),
    decreases s.len(),
{
    if s.len() > 0 && s.last() == '/' {
        assert(e < s.len());
        let dl = s.drop_last();
        assert(forall|m: int| 0 <= m < dl.len() ==> dl[m] == s[m]);
        lemma_trim_end_at(dl, e);
        assert(dl.take(e) =~= s.take(e));
    } else {
        assert(e == s.len());
        assert(s.take(e) =~= s);
    }
}

/// Leading slashes end exactly where the first non-slash character sits.
proof fn lemma_trim_start_at(s: Seq<char>, k: int)
    requires
        0 <= k <= s.len(),
        forall|m: int| 0 <= m < k ==> s[m] == '/',
        k < s.len() ==> s[k] != '/',
    ensures
        trim_start_slashes(s) == s.skip(k),
    decreases s.len(),
{
    if s.len() > 0 && s.first() == '/' {
        assert(k > 0);
        let df = s.drop_first();
        assert(forall|m: int| 0 <= m < df.len() ==> df[m] == s[m + 1]);
        lemma_trim_start_at(df, k - 1);
        assert(df.skip(k - 1) =~= s.skip(k));
    } else {
        assert(k == 0);
        assert(s.skip(0) =~= s);
    }
}

/// The path of `path` relative to `project_root`, if `path` lies under the
/// root (see `relative_path_spec`). The caller keeps only markdown files of
/// the walked tree; this function does the path arithmetic.
pub fn relative_markdown_path(project_root: &str, path: &str) -> (r: Option<String>)
    ensures
        match r {
            Some(s) => relative_path_spec(project_root@, path@) == Some(s@),
            None => relative_path_spec(project_root@, path@) is None,
        },
{
    let rootn = normalize_path(project_root);
    let pathn = normalize_path(path);
    let root_len = rootn.as_str().unicode_len();
    let path_len = pathn.as_str().unicode_len();
    // Trim the trailing slashes of the normalised root.
    let mut e: usize = root_len;
    while e > 0 && rootn.as_str().get_char(e - 1) == '/'
        invariant
            root_len == rootn@.len(),
            e <= root_len,
            forall|m: int| e <= m < root_len ==> rootn@[m] == '/',
        decreases e,
    {
        e -= 1;
    }
    proof {
        lemma_trim_end_at(rootn@, e as int);
    }
    let prefix = rootn.as_str().substring_char(0, e);
    proof {
        assert(prefix@ =~= trim_end_slashes(normalize_seps(project_root@)));
    }
    if path_len <= e {
        proof {
            assert(normalize_seps(path@).len() <= trim_end_slashes(
                normalize_seps(project_root@),
            ).len());
        }
        return None;
    }
    if !str_starts_with_ci(pathn.as_str(), prefix) {
        return None;
    }
    // Trim the leading slashes of the remainder.
    let mut k: usize = e;
    while k < path_len && pathn.as_str().get_char(k) == '/'
        invariant
            path_len == pathn@.len(),
            e <= k <= path_len,
            forall|m: int| e <= m < k ==> pathn@[m] == '/',
        decreases path_len - k,
    {
        k += 1;
    }
    proof {
        let np = normalize_seps(path@);
        let tail = np.skip(e as int);
        assert(forall|m: int| 0 <= m < tail.len() ==> tail[m] == np[m + e]);
        lemma_trim_start_at(tail, k - e);
        assert(tail.skip(k - e) =~= np.skip(k as int));
        assert(np.skip(k as int) =~= pathn@.subrange(k as int, path_len as int));
    }
    let rel = pathn.as_str().substring_char(k, path_len);
    Some(rel.to_owned())
}

} // verus!
