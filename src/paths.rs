use vstd::prelude::*;
use normalize_path::NormalizePath;

verus! {

/// What `NormalizePath::normalize` makes of a path: `.` components dropped,
/// each `..` taking out the component before it, redundant separators gone.
pub uninterp spec fn normalized_path(p: Seq<char>) -> Seq<char>;

/// `p[i..j]` is one component of `p`: it lies between separators or the
/// ends of `p`, and holds no separator.
pub open spec fn is_component(p: Seq<char>, i: int, j: int) -> bool {
    &&& 0 <= i <= j <= p.len()
    &&& i == 0 || p[i - 1] == '/'
    &&& j == p.len() || p[j] == '/'
    &&& forall|k: int| i <= k < j ==> p[k] != '/'
}

/// A path with nothing to collapse: not empty, without a doubled or
/// trailing separator, and without a `.` or `..` component.
pub open spec fn is_plain_path(p: Seq<char>) -> bool {
    &&& p.len() > 0
    &&& p.last() != '/'
    &&& forall|i: int| 0 <= i < p.len() - 1 ==> !(p[i] == '/' && #[trigger] p[i + 1] == '/')
    &&& forall|i: int, j: int|
        #[trigger] is_component(p, i, j) ==> p.subrange(i, j) != "."@ && p.subrange(i, j) != ".."@
}

/// Relies on `normalize_path::NormalizePath::normalize`: it reads only the
/// path and performs no I/O. It rebuilds the path from its components,
/// dropping `.`, letting `..` take out the component before it, and pushing
/// the root and every other component back, so a plain path comes back as
/// it was; a path that collapses to nothing becomes `.`. A path built from
/// UTF-8 text stays UTF-8.
#[verifier::external_body]
pub(crate) fn normalize(p: &str) -> (r: String)
    ensures
        r@ == normalized_path(p@),
        r@.len() > 0,
        is_plain_path(p@) ==> r@ == p@,
{
    std::path::Path::new(p).normalize().to_string_lossy().into_owned()
}

/// `p` with each backslash turned into a slash, as paths written on Windows
/// are read here.
pub open spec fn unix_separators(p: Seq<char>) -> Seq<char> {
    p.map_values(|c: char| if c == '\\' { '/' } else { c })
}

/// `rel` appended to `base` as a path component: an absolute `rel` replaces
/// `base`, and one separator stands between them.
pub open spec fn joined(base: Seq<char>, rel: Seq<char>) -> Seq<char> {
    if rel.len() > 0 && rel[0] == '/' {
        rel
    } else if base.len() == 0 {
        rel
    } else if base.last() == '/' {
        base + rel
    } else {
        base + seq!['/'] + rel
    }
}

/// Reads a path that may use Windows separators.
pub fn into_path(p: &str) -> (r: String)
    ensures
        r@ == unix_separators(p@),
{
    let n = p.unicode_len();
    let mut out = String::new();
    let mut i: usize = 0;
    while i < n
        invariant
            n == p@.len(),
            i <= n,
            out@ == unix_separators(p@.subrange(0, i as int)),
        decreases n - i,
    {
        let c = p.get_char(i);
        if c == '\\' {
            out.append("/");
        } else {
            out.append(p.substring_char(i, i + 1));
        }
        proof {
            reveal_strlit("/");
            assert(unix_separators(p@.subrange(0, i + 1)) =~= unix_separators(p@.subrange(0, i as int)).push(
                if c == '\\' { '/' } else { c },
            ));
        }
        i = i + 1;
    }
    proof {
        assert(p@.subrange(0, n as int) =~= p@);
    }
    out
}

/// Appends `rel` to `base` as a path component.
pub fn join(base: &str, rel: &str) -> (r: String)
    ensures
        r@ == joined(base@, rel@),
{
    let rn = rel.unicode_len();
    let bn = base.unicode_len();
    if rn > 0 && rel.get_char(0) == '/' {
        return String::from_str(rel);
    }
    if bn == 0 {
        return String::from_str(rel);
    }
    let mut out = String::from_str(base);
    if base.get_char(bn - 1) != '/' {
        out.append("/");
    }
    out.append(rel);
    proof {
        reveal_strlit("/");
        assert(out@ =~= joined(base@, rel@));
    }
    out
}

} // verus!
