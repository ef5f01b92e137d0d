//! Plain-string model of paths.
//!
//! The library treats a filesystem path as a sequence of characters in which
//! `/` and `\` separate components.  The final component is the file name,
//! the text before the last separator is the parent, and the part of the
//! file name after its last dot is the extension.  These definitions are the
//! model every contract of the library speaks of.

use vstd::prelude::*;

verus! {

/// Characters treated as path separators.
pub open spec fn is_sep(c: char) -> bool {
    c == '/' || c == '\\'
}

/// Index one past the last occurrence of `c1` or `c2` in `s`, or 0 if
/// neither occurs.
pub open spec fn after_last_any(s: Seq<char>, c1: char, c2: char) -> int
    decreases s.len(),
{
    if s.len() == 0 {
        0
    } else if s[s.len() - 1] == c1 || s[s.len() - 1] == c2 {
        s.len() as int
    } else {
        after_last_any(s.drop_last(), c1, c2)
    }
}

pub proof fn lemma_after_last_any_bounds(s: Seq<char>, c1: char, c2: char)
    ensures
        0 <= after_last_any(s, c1, c2) <= s.len(),
    decreases s.len(),
{
    if s.len() > 0 && !(s[s.len() - 1] == c1 || s[s.len() - 1] == c2) {
        lemma_after_last_any_bounds(s.drop_last(), c1, c2);
    }
}

/// If every character of `s` at or after `j` differs from `c1` and `c2`,
/// the last occurrence lies in the prefix of length `j`.
pub proof fn lemma_after_last_any_suffix(s: Seq<char>, c1: char, c2: char, j: int)
    requires
        0 <= j <= s.len(),
        forall|k: int| j <= k < s.len() ==> !(s[k] == c1 || s[k] == c2),
    ensures
        after_last_any(s, c1, c2) == after_last_any(s.subrange(0, j), c1, c2),
    decreases s.len() - j,
{
    if j < s.len() {
        assert(s.drop_last() =~= s.subrange(0, s.len() - 1));
        lemma_after_last_any_suffix(s.subrange(0, s.len() - 1), c1, c2, j);
        assert(s.subrange(0, s.len() - 1).subrange(0, j) =~= s.subrange(0, j));
    } else {
        assert(s.subrange(0, j) =~= s);
    }
}

/// No sought character occurs at or after the index the search returns.
pub proof fn lemma_after_last_any_none_after(s: Seq<char>, c1: char, c2: char)
    ensures
        forall|k: int| after_last_any(s, c1, c2) <= k < s.len() ==> !(s[k] == c1 || s[k] == c2),
    decreases s.len(),
{
    if s.len() > 0 && !(s[s.len() - 1] == c1 || s[s.len() - 1] == c2) {
        lemma_after_last_any_bounds(s.drop_last(), c1, c2);
        lemma_after_last_any_none_after(s.drop_last(), c1, c2);
        assert forall|k: int|
            after_last_any(s, c1, c2) <= k < s.len() implies !(s[k] == c1 || s[k] == c2) by {
            if 0 <= k < s.len() - 1 {
                assert(s.drop_last()[k] == s[k]);
                assert(!(s.drop_last()[k] == c1 || s.drop_last()[k] == c2));
            }
        }
    }
}

/// Index one past the last path separator of `s`, or 0 if `s` has none.
pub open spec fn after_last_sep(s: Seq<char>) -> int {
    after_last_any(s, '/', '\\')
}

/// Index one past the last dot of `s`, or 0 if `s` has none.
pub open spec fn after_last_dot(s: Seq<char>) -> int {
    after_last_any(s, '.', '.')
}

/// The final component of a path: everything after the last separator.
pub open spec fn spec_file_name(s: Seq<char>) -> Seq<char> {
    s.subrange(after_last_sep(s), s.len() as int)
}

/// The text before the last separator of a path; empty if the path has no
/// separator (and for a bare root such as `/`).
pub open spec fn spec_parent(s: Seq<char>) -> Seq<char> {
    let i = after_last_sep(s);
    if i == 0 {
        Seq::<char>::empty()
    } else {
        s.subrange(0, i - 1)
    }
}

/// The extension of a file name: the text after its last dot.  A name
/// without a dot, or whose only dot opens it (a hidden file), has none.
pub open spec fn spec_extension_of_name(name: Seq<char>) -> Option<Seq<char>> {
    let i = after_last_dot(name);
    if i <= 1 {
        None
    } else {
        Some(name.subrange(i, name.len() as int))
    }
}

/// The extension of a path: the extension of its final component.
pub open spec fn spec_extension(path: Seq<char>) -> Option<Seq<char>> {
    spec_extension_of_name(spec_file_name(path))
}

/// A file name without its extension.
pub open spec fn spec_file_stem_of_name(name: Seq<char>) -> Seq<char> {
    let i = after_last_dot(name);
    if i <= 1 {
        name
    } else {
        name.subrange(0, i - 1)
    }
}

/// The stem of a path's final component.
pub open spec fn spec_file_stem(path: Seq<char>) -> Seq<char> {
    spec_file_stem_of_name(spec_file_name(path))
}

/// Index one past the last occurrence of `c1` or `c2`, executable form.
pub fn find_after_last_any(s: &str, c1: char, c2: char) -> (i: usize)
    ensures
        i as int == after_last_any(s@, c1, c2),
        i <= s@.len(),
{
    let n = s.unicode_len();
    let mut j = n;
    loop
        invariant
            j <= n,
            n == s@.len(),
            forall|k: int| j <= k < n ==> !(s@[k] == c1 || s@[k] == c2),
        decreases j,
    {
        if j == 0 {
            proof {
                lemma_after_last_any_suffix(s@, c1, c2, 0);
                assert(s@.subrange(0, 0) =~= Seq::<char>::empty());
            }
            return 0;
        }
        let c = s.get_char(j - 1);
        if c == c1 || c == c2 {
            proof {
                lemma_after_last_any_suffix(s@, c1, c2, j as int);
                let t = s@.subrange(0, j as int);
                assert(t[j - 1] == s@[j - 1]);
                assert(after_last_any(t, c1, c2) == j);
            }
            return j;
        }
        j = j - 1;
    }
}

/// The final component of a path.
pub fn file_name_of(s: &str) -> (r: String)
    ensures
        r@ == spec_file_name(s@),
{
    let n = s.unicode_len();
    let i = find_after_last_any(s, '/', '\\');
    String::from_str(s.substring_char(i, n))
}

/// The text before the last separator of a path.
pub fn parent_of(s: &str) -> (r: String)
    ensures
        r@ == spec_parent(s@),
{
    let i = find_after_last_any(s, '/', '\\');
    if i == 0 {
        String::new()
    } else {
        String::from_str(s.substring_char(0, i - 1))
    }
}

/// The extension of a path, if its final component has one.
pub fn extension_of(path: &str) -> (r: Option<String>)
    ensures
        match r {
            Some(e) => spec_extension(path@) == Some(e@),
            None => spec_extension(path@) is None,
        },
{
    let name = file_name_of(path);
    let nn = name.as_str().unicode_len();
    let i = find_after_last_any(name.as_str(), '.', '.');
    if i <= 1 {
        None
    } else {
        Some(String::from_str(name.as_str().substring_char(i, nn)))
    }
}

/// The stem of a path's final component.
pub fn file_stem_of(path: &str) -> (r: String)
    ensures
        r@ == spec_file_stem(path@),
{
    let name = file_name_of(path);
    let nn = name.as_str().unicode_len();
    let i = find_after_last_any(name.as_str(), '.', '.');
    if i <= 1 {
        name
    } else {
        String::from_str(name.as_str().substring_char(0, i - 1))
    }
}

/// Character-wise string equality.
pub fn str_eq(a: &str, b: &str) -> (r: bool)
    ensures
        r == (a@ == b@),
{
    let na = a.unicode_len();
    let nb = b.unicode_len();
    if na != nb {
        proof {
            assert(a@ == b@ ==> a@.len() == b@.len());
        }
        return false;
    }
    for i in 0..na
        invariant
            na == a@.len(),
            nb == b@.len(),
            na == nb,
            forall|k: int| 0 <= k < i ==> a@[k] == b@[k],
    {
        let ca = a.get_char(i);
        let cb = b.get_char(i);
        if ca != cb {
            proof {
                assert(a@ == b@ ==> a@[i as int] == b@[i as int]);
            }
            return false;
        }
    }
    proof {
        assert(a@ =~= b@);
    }
    true
}

/// Whether `s` begins with `pre`.
pub open spec fn spec_starts_with(s: Seq<char>, pre: Seq<char>) -> bool {
    pre.len() <= s.len() && s.subrange(0, pre.len() as int) == pre
}

/// Character-wise prefix test.
pub fn str_starts_with(s: &str, pre: &str) -> (r: bool)
    ensures
        r == spec_starts_with(s@, pre@),
{
    let ns = s.unicode_len();
    let np = pre.unicode_len();
    if np > ns {
        return false;
    }
    for i in 0..np
        invariant
            np <= ns,
            ns == s@.len(),
            np == pre@.len(),
            forall|k: int| 0 <= k < i ==> s@[k] == pre@[k],
    {
        let cs = s.get_char(i);
        let cp = pre.get_char(i);
        if cs != cp {
            proof {
                if spec_starts_with(s@, pre@) {
                    assert(s@.subrange(0, np as int)[i as int] == s@[i as int]);
                }
            }
            return false;
        }
    }
    proof {
        assert(s@.subrange(0, np as int) =~= pre@);
    }
    true
}

/// Whether `p` names the directory `prefix` itself or something inside
/// it: it equals the prefix, or continues it straight across a path
/// separator.  A sibling that merely shares the prefix's characters, such
/// as `/ab` beside `/a`, does not qualify.
pub open spec fn spec_is_path_under(p: Seq<char>, prefix: Seq<char>) -> bool {
    p == prefix || (spec_starts_with(p, prefix) && prefix.len() < p.len() && is_sep(
        p[prefix.len() as int],
    ))
}

/// Component-boundary test for [`spec_is_path_under`].
pub fn path_is_under(p: &str, prefix: &str) -> (r: bool)
    ensures
        r == spec_is_path_under(p@, prefix@),
{
    let np = p.unicode_len();
    let npre = prefix.unicode_len();
    if !str_starts_with(p, prefix) {
        proof {
            if p@ == prefix@ {
                assert(p@.subrange(0, prefix@.len() as int) =~= prefix@);
            }
        }
        return false;
    }
    if np == npre {
        proof {
            assert(p@.subrange(0, npre as int) =~= p@);
        }
        true
    } else {
        let c = p.get_char(npre);
        proof {
            if p@ == prefix@ {
                assert(p@.len() == prefix@.len());
            }
        }
        c == '/' || c == '\\'
    }
}

/// String equality between two `String` values, by view.
pub fn string_eq(a: &String, b: &String) -> (r: bool)
    ensures
        r == (a@ == b@),
{
    str_eq(a.as_str(), b.as_str())
}

/// The fixed allow-list of panel image extensions.
pub open spec fn spec_is_supported_image_ext(e: Seq<char>) -> bool {
    ||| e == "jpg"@
    ||| e == "jpeg"@
    ||| e == "png"@
    ||| e == "gif"@
    ||| e == "bmp"@
    ||| e == "tiff"@
    ||| e == "webp"@
    ||| e == "svg"@
    ||| e == "heif"@
    ||| e == "raw"@
    ||| e == "ico"@
    ||| e == "apng"@
    ||| e == "jfif"@
    ||| e == "exi"@
}

/// Whether `e` is a recognized panel image extension.
pub fn is_supported_image_ext(e: &str) -> (r: bool)
    ensures
        r == spec_is_supported_image_ext(e@),
{
    ||| str_eq(e, "jpg")
    ||| str_eq(e, "jpeg")
    ||| str_eq(e, "png")
    ||| str_eq(e, "gif")
    ||| str_eq(e, "bmp")
    ||| str_eq(e, "tiff")
    ||| str_eq(e, "webp")
    ||| str_eq(e, "svg")
    ||| str_eq(e, "heif")
    ||| str_eq(e, "raw")
    ||| str_eq(e, "ico")
    ||| str_eq(e, "apng")
    ||| str_eq(e, "jfif")
    ||| str_eq(e, "exi")
}

/// What one character of a path becomes under separator normalization.
pub open spec fn spec_normalize_char(c: char, sep: Seq<char>) -> Seq<char> {
    if is_sep(c) {
        sep
    } else {
        seq![c]
    }
}

/// A path with every separator replaced by `sep`.
pub open spec fn spec_normalize_path(s: Seq<char>, sep: Seq<char>) -> Seq<char>
    decreases s.len(),
{
    if s.len() == 0 {
        Seq::<char>::empty()
    } else {
        spec_normalize_path(s.drop_last(), sep) + spec_normalize_char(s[s.len() - 1], sep)
    }
}

/// Rewrites both separator styles of a path to the host's own, handed in as
/// `sep` (for example the platform separator).
pub fn _normalize_path(path: &str, sep: &str) -> (r: String)
    ensures
        r@ == spec_normalize_path(path@, sep@),
{
    let n = path.unicode_len();
    let mut out = String::new();
    for i in 0..n
        invariant
            n == path@.len(),
            out@ == spec_normalize_path(path@.subrange(0, i as int), sep@),
    {
        let c = path.get_char(i);
        if c == '/' || c == '\\' {
            out.append(sep);
        } else {
            out.append(path.substring_char(i, i + 1));
        }
        proof {
            let pre = path@.subrange(0, i as int);
            let cur = path@.subrange(0, i + 1);
            assert(cur.drop_last() =~= pre);
            assert(cur[cur.len() - 1] == path@[i as int]);
            assert(path@.subrange(i as int, i + 1) =~= seq![path@[i as int]]);
        }
    }
    proof {
        assert(path@.subrange(0, n as int) =~= path@);
    }
    out
}

} // verus!
