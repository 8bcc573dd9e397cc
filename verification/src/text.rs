//! Verified helpers over `&str` and `String`.
//!
//! Paths are plain strings throughout the core; every comparison,
//! prefix test and rewrite the store and cache rely on is proved here.

use vstd::prelude::*;

verus! {

/// Character-wise equality of two string slices.
pub fn str_eq(a: &str, b: &str) -> (r: bool)
    ensures
        r == (a@ == b@),
{
    let alen = a.unicode_len();
    let blen = b.unicode_len();
    if alen != blen {
        assert(a@ != b@);
        return false;
    }
    let mut i: usize = 0;
    while i < alen
        invariant
            alen == a@.len(),
            alen == b@.len(),
            0 <= i <= alen,
            forall|j: int| 0 <= j < i ==> a@[j] == b@[j],
        decreases alen - i,
    {
        if a.get_char(i) != b.get_char(i) {
            assert(a@ != b@);
            return false;
        }
        i += 1;
    }
    proof {
        assert(a@ =~= b@);
    }
    true
}

/// Does `s` start with `p`, character for character?
pub fn starts_with_str(s: &str, p: &str) -> (r: bool)
    ensures
        r == p@.is_prefix_of(s@),
{
    let slen = s.unicode_len();
    let plen = p.unicode_len();
    if plen > slen {
        return false;
    }
    let mut i: usize = 0;
    while i < plen
        invariant
            slen == s@.len(),
            plen == p@.len(),
            plen <= slen,
            0 <= i <= plen,
            forall|j: int| 0 <= j < i ==> s@[j] == p@[j],
        decreases plen - i,
    {
        if s.get_char(i) != p.get_char(i) {
            assert(s@.subrange(0, p@.len() as int)[i as int] != p@[i as int]);
            return false;
        }
        i += 1;
    }
    proof {
        assert(p@ =~= s@.subrange(0, p@.len() as int));
    }
    true
}

/// Concatenation of two string slices into an owned string.
pub fn concat_str(a: &str, b: &str) -> (r: String)
    ensures
        r@ == a@ + b@,
{
    let owned = a.to_owned();
    owned.concat(b)
}

/// The characters of `s` from position `from` to its end.
pub fn suffix_from(s: &str, from: usize) -> (r: String)
    requires
        from <= s@.len(),
    ensures
        r@ == s@.subrange(from as int, s@.len() as int),
{
    let len = s.unicode_len();
    let tail = s.substring_char(from, len);
    tail.to_owned()
}

/// `s` with the prefix `old_p` replaced by `new_p`.
pub fn replace_prefix(s: &str, old_p: &str, new_p: &str) -> (r: String)
    requires
        old_p@.is_prefix_of(s@),
    ensures
        r@ == new_p@ + s@.subrange(old_p@.len() as int, s@.len() as int),
{
    let plen = old_p.unicode_len();
    let tail = suffix_from(s, plen);
    concat_str(new_p, tail.as_str())
}

/// Is `path` the very path `prefix`, or inside the directory it
/// names? Matching stops at a separator boundary, so a sibling such
/// as `/root/subother` never matches the prefix `/root/sub`.
pub open spec fn spec_path_under(path: Seq<char>, prefix: Seq<char>) -> bool {
    path == prefix || (prefix + seq!['/']).is_prefix_of(path)
}

/// Exec test for [`spec_path_under`].
pub fn path_under(path: &str, prefix: &str) -> (r: bool)
    ensures
        r == spec_path_under(path@, prefix@),
{
    if str_eq(path, prefix) {
        return true;
    }
    let dir = concat_str(prefix, "/");
    proof {
        reveal_strlit("/");
        assert(dir@ =~= prefix@ + seq!['/']);
    }
    starts_with_str(path, dir.as_str())
}

/// Position of the last occurrence of `c` in `s`, if any.
pub open spec fn find_last(s: Seq<char>, c: char) -> Option<int>
    decreases s.len(),
{
    if s.len() == 0 {
        None
    } else if s.last() == c {
        Some(s.len() - 1)
    } else {
        find_last(s.drop_last(), c)
    }
}

proof fn lemma_find_last_at(s: Seq<char>, c: char, i: int)
    requires
        0 <= i < s.len(),
        s[i] == c,
        forall|j: int| i < j < s.len() ==> s[j] != c,
    ensures
        find_last(s, c) == Some(i),
    decreases s.len(),
{
    if s.last() == c {
        assert(i == s.len() - 1);
    } else {
        assert(i < s.len() - 1);
        lemma_find_last_at(s.drop_last(), c, i);
    }
}

proof fn lemma_find_last_none(s: Seq<char>, c: char)
    requires
        forall|j: int| 0 <= j < s.len() ==> s[j] != c,
    ensures
        find_last(s, c) is None,
    decreases s.len(),
{
    if s.len() > 0 {
        lemma_find_last_none(s.drop_last(), c);
    }
}

proof fn lemma_find_last_some(s: Seq<char>, c: char)
    requires
        find_last(s, c) is Some,
    ensures
        0 <= find_last(s, c)->Some_0 < s.len(),
        s[find_last(s, c)->Some_0] == c,
    decreases s.len(),
{
    if s.len() > 0 && s.last() != c {
        lemma_find_last_some(s.drop_last(), c);
    }
}

/// Index just past the last occurrence of `c`, or 0 when absent.
pub open spec fn after_last(s: Seq<char>, c: char) -> int {
    match find_last(s, c) {
        None => 0,
        Some(i) => i + 1,
    }
}

proof fn lemma_after_last_bounds(s: Seq<char>, c: char)
    ensures
        0 <= after_last(s, c) <= s.len(),
    decreases s.len(),
{
    if s.len() > 0 && s.last() != c {
        lemma_after_last_bounds(s.drop_last(), c);
    }
}

/// Exec search for the position just past the last occurrence of `c`.
pub fn scan_after_last(s: &str, c: char) -> (r: usize)
    ensures
        r == after_last(s@, c),
{
    let len = s.unicode_len();
    let mut i: usize = len;
    while i > 0
        invariant
            len == s@.len(),
            0 <= i <= len,
            forall|j: int| i <= j < len ==> s@[j] != c,
        decreases i,
    {
        let ch = s.get_char(i - 1);
        if ch == c {
            proof {
                lemma_find_last_at(s@, c, i - 1);
            }
            return i;
        }
        i -= 1;
    }
    proof {
        lemma_find_last_none(s@, c);
    }
    0
}

/// The base name of a path: everything after the last separator.
pub open spec fn spec_base_name(s: Seq<char>) -> Seq<char> {
    s.subrange(after_last(s, '/'), s.len() as int)
}

/// Exec base name of a path.
pub fn base_name(path: &str) -> (r: String)
    ensures
        r@ == spec_base_name(path@),
{
    proof {
        lemma_after_last_bounds(path@, '/');
    }
    let cut = scan_after_last(path, '/');
    suffix_from(path, cut)
}

/// The extension of a path: what follows the last dot of the base
/// name, unless the dot leads it (hidden files have no extension).
pub open spec fn spec_extension(s: Seq<char>) -> Option<Seq<char>> {
    let base = spec_base_name(s);
    match find_last(base, '.') {
        None => None,
        Some(i) => if i == 0 {
            None
        } else {
            Some(base.subrange(i + 1, base.len() as int))
        },
    }
}

/// Exec extension of a path.
pub fn extension(path: &str) -> (r: Option<String>)
    ensures
        match r {
            Some(e) => spec_extension(path@) == Some(e@),
            None => spec_extension(path@) is None,
        },
{
    let base = base_name(path);
    proof {
        lemma_after_last_bounds(base@, '.');
    }
    let cut = scan_after_last(base.as_str(), '.');
    if cut <= 1 {
        proof {
            if cut == 1 {
                assert(find_last(base@, '.') == Some(0int));
            } else {
                assert(find_last(base@, '.') is None) by {
                    if find_last(base@, '.') is Some {
                        lemma_find_last_some(base@, '.');
                    }
                }
            }
        }
        None
    } else {
        assert(find_last(base@, '.') == Some(cut - 1int));
        Some(suffix_from(base.as_str(), cut))
    }
}

} // verus!
