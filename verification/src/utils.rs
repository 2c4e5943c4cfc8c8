//! Archive paths and the patterns that exempt entries from encryption.
//!
//! Inside an archive a path is written with backslashes; everywhere else the library
//! writes it with forward slashes.

use vstd::prelude::*;
use crate::text::{chars_of, string_of, contains_seq, is_suffix, find, ends_with};

verus! {

/// `s` with every `from` replaced by `to`.
pub open spec fn spec_replace(s: Seq<char>, from: char, to: char) -> Seq<char> {
    s.map_values(
        |c: char|
            if c == from {
                to
            } else {
                c
            },
    )
}

/// `s` without the NUL characters at its end.
pub open spec fn spec_trim_nul(s: Seq<char>) -> Seq<char>
    decreases s.len(),
{
    if s.len() > 0 && s.last() == '\0' {
        spec_trim_nul(s.drop_last())
    } else {
        s
    }
}

/// The forward-slash path of an archive name.
pub open spec fn spec_pf8_path_to_pathbuf(pf8_path: Seq<char>) -> Seq<char> {
    spec_replace(pf8_path, '\\', '/')
}

/// The archive name of a forward-slash path.
pub open spec fn spec_pathbuf_to_pf8_path(path: Seq<char>) -> Seq<char> {
    spec_replace(path, '/', '\\')
}

/// Whether one pattern matches an archive name: a pattern that begins with a dot matches
/// as a suffix, any other pattern wherever it occurs in the name.
pub open spec fn spec_matches_pattern(path: Seq<char>, pattern: Seq<char>) -> bool {
    if pattern.len() > 0 && pattern[0] == '.' {
        is_suffix(path, pattern)
    } else {
        path == pattern || contains_seq(path, pattern)
    }
}

/// Whether some pattern of the list matches the archive name.
pub open spec fn spec_matches_any(path: Seq<char>, patterns: Seq<Seq<char>>) -> bool {
    exists|k: int| 0 <= k < patterns.len() && spec_matches_pattern(path, #[trigger] patterns[k])
}

/// The character sequences of a list of patterns.
pub open spec fn pattern_views(patterns: Seq<&str>) -> Seq<Seq<char>> {
    patterns.map_values(|p: &str| p@)
}

/// Replaces every `from` by `to`.
pub fn replace_char(s: &[char], from: char, to: char) -> (res: Vec<char>)
    ensures
        res@ == spec_replace(s@, from, to),
{
    let mut res: Vec<char> = Vec::new();
    let mut i: usize = 0;
    while i < s.len()
        invariant
            i <= s.len(),
            res.len() == i,
            forall|j: int| 0 <= j < i ==> res[j] == spec_replace(s@, from, to)[j],
        decreases s.len() - i,
    {
        let c = s[i];
        res.push(
            if c == from {
                to
            } else {
                c
            },
        );
        i = i + 1;
    }
    assert(res@ =~= spec_replace(s@, from, to));
    res
}

/// Converts an archive name (backslash-separated) to a forward-slash path.
pub fn pf8_path_to_pathbuf(pf8_path: &str) -> (path: String)
    ensures
        path@ == spec_pf8_path_to_pathbuf(pf8_path@),
{
    let chars = chars_of(pf8_path);
    let replaced = replace_char(chars.as_slice(), '\\', '/');
    string_of(replaced.as_slice())
}

/// Converts a forward-slash path to an archive name (backslash-separated).
pub fn pathbuf_to_pf8_path(path: &str) -> (name: String)
    ensures
        name@ == spec_pathbuf_to_pf8_path(path@),
{
    let chars = chars_of(path);
    let replaced = replace_char(chars.as_slice(), '/', '\\');
    string_of(replaced.as_slice())
}

/// Removes the NUL characters at the end of `s`.
pub fn trim_nul(s: &[char]) -> (res: &[char])
    ensures
        res@ == spec_trim_nul(s@),
{
    let mut n: usize = s.len();
    assert(s@.take(n as int) =~= s@);
    while n > 0 && s[n - 1] == '\0'
        invariant
            n <= s.len(),
            spec_trim_nul(s@) == spec_trim_nul(s@.take(n as int)),
        decreases n,
    {
        assert(s@.take(n as int).drop_last() =~= s@.take(n - 1));
        n = n - 1;
    }
    let res = vstd::slice::slice_subrange(s, 0, n);
    assert(res@ =~= s@.take(n as int));
    res
}

/// Tests one pattern against an archive name.
pub fn matches_pattern(path: &[char], pattern: &[char]) -> (b: bool)
    ensures
        b == spec_matches_pattern(path@, pattern@),
{
    if pattern.len() > 0 && pattern[0] == '.' {
        ends_with(path, pattern)
    } else {
        let found = find(path, pattern);
        proof {
            if path@ == pattern@ {
                assert(path@.subrange(0, path.len() as int) =~= path@);
                assert(crate::text::occurs_at(path@, pattern@, 0));
            }
        }
        found.is_some()
    }
}

/// Tests whether an archive name matches one of the patterns.
pub fn matches_any_pattern(path: &str, patterns: &[&str]) -> (b: bool)
    ensures
        b == spec_matches_any(path@, pattern_views(patterns@)),
{
    let chars = chars_of(path);
    let mut k: usize = 0;
    while k < patterns.len()
        invariant
            k <= patterns.len(),
            chars@ == path@,
            forall|j: int|
                0 <= j < k ==> !spec_matches_pattern(path@, #[trigger] pattern_views(patterns@)[j]),
        decreases patterns.len() - k,
    {
        let pattern = chars_of(patterns[k]);
        if matches_pattern(chars.as_slice(), pattern.as_slice()) {
            assert(pattern_views(patterns@)[k as int] == pattern@);
            return true;
        }
        k = k + 1;
    }
    false
}

} // verus!
