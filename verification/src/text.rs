//! Character-sequence helpers: equality, prefix/suffix tests, and path
//! basename extraction, all specified over `Seq<char>` views.

use vstd::prelude::*;

verus! {

/// `p` is an initial segment of `s`.
pub open spec fn is_prefix_of(p: Seq<char>, s: Seq<char>) -> bool {
    p.len() <= s.len() && p == s.subrange(0, p.len() as int)
}

/// `p` is a final segment of `s`.
pub open spec fn is_suffix_of(p: Seq<char>, s: Seq<char>) -> bool {
    p.len() <= s.len() && p == s.subrange(s.len() - p.len(), s.len() as int)
}

/// Character-for-character string equality.
pub fn str_eq(a: &str, b: &str) -> (r: bool)
    ensures
        r == (a@ == b@),
{
    let alen = a.unicode_len();
    let blen = b.unicode_len();
    if alen != blen {
        return false;
    }
    let mut i: usize = 0;
    while i < alen
        invariant
            i <= alen,
            alen == a@.len(),
            alen == b@.len(),
            forall|k: int| 0 <= k < i ==> a@[k] == b@[k],
        decreases alen - i,
    {
        if a.get_char(i) != b.get_char(i) {
            return false;
        }
        i = i + 1;
    }
    proof {
        assert(a@ =~= b@);
    }
    true
}

/// Whether `s` starts with the pattern `p`.
pub fn str_starts_with(s: &str, p: &str) -> (r: bool)
    ensures
        r == is_prefix_of(p@, s@),
{
    let slen = s.unicode_len();
    let plen = p.unicode_len();
    if plen > slen {
        return false;
    }
    let mut i: usize = 0;
    while i < plen
        invariant
            i <= plen,
            plen <= slen,
            slen == s@.len(),
            plen == p@.len(),
            forall|k: int| 0 <= k < i ==> s@[k] == p@[k],
        decreases plen - i,
    {
        if s.get_char(i) != p.get_char(i) {
            proof {
                assert(s@.subrange(0, p@.len() as int)[i as int] != p@[i as int]);
            }
            return false;
        }
        i = i + 1;
    }
    proof {
        assert(p@ =~= s@.subrange(0, p@.len() as int));
    }
    true
}

/// Whether `s` ends with the pattern `p`.
pub fn str_ends_with(s: &str, p: &str) -> (r: bool)
    ensures
        r == is_suffix_of(p@, s@),
{
    let slen = s.unicode_len();
    let plen = p.unicode_len();
    if plen > slen {
        return false;
    }
    let off = slen - plen;
    let mut i: usize = 0;
    while i < plen
        invariant
            i <= plen,
            plen <= slen,
            off == slen - plen,
            slen == s@.len(),
            plen == p@.len(),
            forall|k: int| 0 <= k < i ==> s@[off + k] == p@[k],
        decreases plen - i,
    {
        if s.get_char(off + i) != p.get_char(i) {
            proof {
                assert(s@.subrange(s@.len() - p@.len(), s@.len() as int)[i as int] != p@[i as int]);
            }
            return false;
        }
        i = i + 1;
    }
    proof {
        assert(p@ =~= s@.subrange(s@.len() - p@.len(), s@.len() as int));
    }
    true
}

/// `s` with every trailing `'/'` removed.
pub open spec fn strip_trailing_slashes(s: Seq<char>) -> Seq<char>
    decreases s.len(),
{
    if s.len() > 0 && s.last() == '/' {
        strip_trailing_slashes(s.drop_last())
    } else {
        s
    }
}

/// The characters strictly after the last `'/'` of `s` (all of `s` if it has
/// no `'/'`, empty if it ends with one).
pub open spec fn suffix_after_last_slash(s: Seq<char>) -> Seq<char>
    decreases s.len(),
{
    if s.len() == 0 {
        s
    } else if s.last() == '/' {
        Seq::empty()
    } else {
        suffix_after_last_slash(s.drop_last()).push(s.last())
    }
}

/// The final path component of `s`, ignoring trailing separators.
pub open spec fn basename_of(s: Seq<char>) -> Seq<char> {
    suffix_after_last_slash(strip_trailing_slashes(s))
}

/// A path names something below the filesystem root exactly when it still has
/// characters once trailing separators are stripped.
pub open spec fn has_parent_component(s: Seq<char>) -> bool {
    strip_trailing_slashes(s).len() > 0
}

proof fn lemma_strip_trailing(s: Seq<char>, end: int)
    requires
        0 <= end <= s.len(),
        forall|k: int| end <= k < s.len() ==> s[k] == '/',
        end > 0 ==> s[end - 1] != '/',
    ensures
        strip_trailing_slashes(s) == s.subrange(0, end),
    decreases s.len(),
{
    if s.len() == end {
        assert(s.subrange(0, end) =~= s);
    } else {
        assert(s.last() == '/');
        lemma_strip_trailing(s.drop_last(), end);
        assert(s.drop_last().subrange(0, end) =~= s.subrange(0, end));
    }
}

proof fn lemma_suffix_after(s: Seq<char>, start: int)
    requires
        0 <= start <= s.len(),
        forall|k: int| start <= k < s.len() ==> s[k] != '/',
        start > 0 ==> s[start - 1] == '/',
    ensures
        suffix_after_last_slash(s) == s.subrange(start, s.len() as int),
    decreases s.len(),
{
    if s.len() == start {
        if start == 0 {
            assert(s.subrange(0, 0) =~= suffix_after_last_slash(s));
        } else {
            assert(s.last() == '/');
            assert(s.subrange(start, s.len() as int) =~= Seq::<char>::empty());
        }
    } else {
        assert(s.last() != '/');
        lemma_suffix_after(s.drop_last(), start);
        assert(s.drop_last().subrange(start, s.drop_last().len() as int).push(s.last()) =~= s.subrange(
            start,
            s.len() as int,
        ));
    }
}

/// The final path component of `path`, ignoring trailing separators; the
/// executable counterpart of [`basename_of`].
pub fn basename<'a>(path: &'a str) -> (r: &'a str)
    ensures
        r@ == basename_of(path@),
{
    let n = path.unicode_len();
    let mut end: usize = n;
    while end > 0 && path.get_char(end - 1) == '/'
        invariant
            end <= n,
            n == path@.len(),
            forall|k: int| end <= k < n ==> path@[k] == '/',
        decreases end,
    {
        end = end - 1;
    }
    let mut start: usize = end;
    while start > 0 && path.get_char(start - 1) != '/'
        invariant
            start <= end,
            end <= n,
            n == path@.len(),
            forall|k: int| start <= k < end ==> path@[k] != '/',
        decreases start,
    {
        start = start - 1;
    }
    proof {
        lemma_strip_trailing(path@, end as int);
        lemma_suffix_after(path@.subrange(0, end as int), start as int);
    }
    path.substring_char(start, end)
}

proof fn lemma_strip_keeps_nonslash(s: Seq<char>, k: int)
    requires
        0 <= k < s.len(),
        s[k] != '/',
    ensures
        strip_trailing_slashes(s).len() > k,
    decreases s.len(),
{
    if s.len() > 0 && s.last() == '/' {
        lemma_strip_keeps_nonslash(s.drop_last(), k);
    }
}

/// Whether the path still has characters once trailing separators are
/// stripped; the executable counterpart of [`has_parent_component`].
pub fn path_has_parent(path: &str) -> (r: bool)
    ensures
        r == has_parent_component(path@),
{
    let n = path.unicode_len();
    let mut i: usize = 0;
    while i < n
        invariant
            i <= n,
            n == path@.len(),
            forall|k: int| 0 <= k < i ==> path@[k] == '/',
        decreases n - i,
    {
        if path.get_char(i) != '/' {
            proof {
                lemma_strip_keeps_nonslash(path@, i as int);
            }
            return true;
        }
        i = i + 1;
    }
    proof {
        lemma_strip_trailing(path@, 0);
    }
    false
}

} // verus!
