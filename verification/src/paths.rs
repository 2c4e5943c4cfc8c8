//! Paths as the library sees them: strings whose components are separated by `/`.
//!
//! The functions work on the text of a path alone and never look at a file system.

use vstd::prelude::*;
use crate::text::{chars_of, string_of, matches_at, occurs_at};

verus! {

/// The position of the last `c` in `s`, if it has one.
pub open spec fn spec_last_index_of(s: Seq<char>, c: char) -> Option<int>
    decreases s.len(),
{
    if s.len() == 0 {
        None
    } else if s.last() == c {
        Some(s.len() - 1)
    } else {
        spec_last_index_of(s.drop_last(), c)
    }
}

/// The position of the last `/` in a path, if it has one.
pub open spec fn spec_last_slash(p: Seq<char>) -> Option<int> {
    spec_last_index_of(p, '/')
}

/// The last component as it is written: what follows the last `/`, or the whole path.
pub open spec fn spec_last_component(p: Seq<char>) -> Seq<char> {
    match spec_last_slash(p) {
        Some(i) => p.subrange(i + 1, p.len() as int),
        None => p,
    }
}

/// The file name of a path: its last component, unless that is empty, `.` or `..`.
pub open spec fn spec_file_name(p: Seq<char>) -> Option<Seq<char>> {
    let name = spec_last_component(p);
    if name.len() == 0 || name == seq!['.'] || name == seq!['.', '.'] {
        None
    } else {
        Some(name)
    }
}

/// The path without its last component. The root and the empty path have no parent; the
/// parent of a single component is the empty path.
pub open spec fn spec_parent(p: Seq<char>) -> Option<Seq<char>> {
    match spec_last_slash(p) {
        Some(i) => if p.len() == 1 {
            None
        } else if i == 0 {
            Some(seq!['/'])
        } else {
            Some(p.take(i))
        },
        None => if p.len() == 0 {
            None
        } else {
            Some(Seq::empty())
        },
    }
}

/// `rel` appended to `base`: `rel` alone if it begins with `/` or `base` is empty,
/// otherwise both with exactly one separator between a `base` that lacks one and `rel`.
pub open spec fn spec_join(base: Seq<char>, rel: Seq<char>) -> Seq<char> {
    if (rel.len() > 0 && rel[0] == '/') || base.len() == 0 {
        rel
    } else if base.last() == '/' {
        base + rel
    } else {
        base + seq!['/'] + rel
    }
}

/// What is left of `path` below the directory `base`, if `path` lies below it.
pub open spec fn spec_strip_prefix(path: Seq<char>, base: Seq<char>) -> Option<Seq<char>> {
    if base.len() == 0 {
        Some(path)
    } else if path == base {
        Some(Seq::empty())
    } else if base.last() == '/' && occurs_at(path, base, 0) {
        Some(path.skip(base.len() as int))
    } else if occurs_at(path, base + seq!['/'], 0) {
        Some(path.skip(base.len() as int + 1))
    } else {
        None
    }
}

/// The position of the last `.` in a name, if it has one.
pub open spec fn spec_last_dot(name: Seq<char>) -> Option<int> {
    spec_last_index_of(name, '.')
}

/// A file name without its extension: the part before the last `.`, unless the name has
/// no `.` or begins with its only one.
pub open spec fn spec_stem_of(name: Seq<char>) -> Seq<char> {
    match spec_last_dot(name) {
        Some(i) => if i == 0 {
            name
        } else {
            name.take(i)
        },
        None => name,
    }
}

/// The file name of a path without its extension.
pub open spec fn spec_file_stem(p: Seq<char>) -> Option<Seq<char>> {
    match spec_file_name(p) {
        Some(name) => Some(spec_stem_of(name)),
        None => None,
    }
}

/// The path with the extension of its file name removed.
pub open spec fn spec_without_extension(p: Seq<char>) -> Seq<char> {
    match spec_file_name(p) {
        Some(name) => p.take(p.len() - name.len()) + spec_stem_of(name),
        None => p,
    }
}

/// Finds the last occurrence of `c`.
pub fn last_index_of(s: &[char], c: char) -> (res: Option<usize>)
    ensures
        match res {
            Some(i) => i < s.len() && s[i as int] == c && forall|j: int|
                i < j < s.len() ==> s[j] != c,
            None => forall|j: int| 0 <= j < s.len() ==> s[j] != c,
        },
{
    let mut n: usize = s.len();
    while n > 0
        invariant
            n <= s.len(),
            forall|j: int| n <= j < s.len() ==> s[j] != c,
        decreases n,
    {
        if s[n - 1] == c {
            return Some(n - 1);
        }
        n = n - 1;
    }
    None
}

/// The last `c` of `s` is where no `c` follows.
pub proof fn lemma_last_index_of(s: Seq<char>, c: char)
    ensures
        match spec_last_index_of(s, c) {
            Some(i) => 0 <= i < s.len() && s[i] == c && forall|j: int|
                i < j < s.len() ==> s[j] != c,
            None => forall|j: int| 0 <= j < s.len() ==> s[j] != c,
        },
    decreases s.len(),
{
    if s.len() > 0 && s.last() != c {
        lemma_last_index_of(s.drop_last(), c);
        assert forall|j: int| 0 <= j < s.len() - 1 implies s.drop_last()[j] == s[j] by {}
    }
}

/// The characters of the file name of a path.
pub fn file_name_chars(p: &[char]) -> (res: Option<&[char]>)
    ensures
        match res {
            Some(name) => spec_file_name(p@) == Some(name@) && name@.len() <= p@.len(),
            None => spec_file_name(p@) is None,
        },
{
    proof {
        lemma_last_index_of(p@, '/');
    }
    let start: usize = match last_index_of(p, '/') {
        Some(i) => i + 1,
        None => 0,
    };
    let name = vstd::slice::slice_subrange(p, start, p.len());
    assert(name@ =~= spec_last_component(p@));
    if name.len() == 0 {
        return None;
    }
    if name.len() == 1 && name[0] == '.' {
        assert(name@ =~= seq!['.']);
        return None;
    }
    if name.len() == 2 && name[0] == '.' && name[1] == '.' {
        assert(name@ =~= seq!['.', '.']);
        return None;
    }
    assert(name@ != seq!['.']) by {
        if name@ == seq!['.'] {
            assert(name@.len() == 1 && name@[0] == '.');
        }
    }
    assert(name@ != seq!['.', '.']) by {
        if name@ == seq!['.', '.'] {
            assert(name@.len() == 2 && name@[0] == '.' && name@[1] == '.');
        }
    }
    Some(name)
}

/// The file name of a path.
pub fn file_name(path: &str) -> (res: Option<String>)
    ensures
        match res {
            Some(name) => spec_file_name(path@) == Some(name@),
            None => spec_file_name(path@) is None,
        },
{
    let chars = chars_of(path);
    match file_name_chars(chars.as_slice()) {
        Some(name) => Some(string_of(name)),
        None => None,
    }
}

/// The characters of the parent of a path.
pub fn parent_chars(p: &[char]) -> (res: Option<Vec<char>>)
    ensures
        match res {
            Some(parent) => spec_parent(p@) == Some(parent@),
            None => spec_parent(p@) is None,
        },
{
    proof {
        lemma_last_index_of(p@, '/');
    }
    match last_index_of(p, '/') {
        Some(i) => {
            if p.len() == 1 {
                None
            } else if i == 0 {
                let mut root: Vec<char> = Vec::new();
                root.push('/');
                assert(root@ =~= seq!['/']);
                Some(root)
            } else {
                let parent = vstd::slice::slice_to_vec(vstd::slice::slice_subrange(p, 0, i));
                assert(parent@ =~= p@.take(i as int));
                Some(parent)
            }
        },
        None => {
            if p.len() == 0 {
                None
            } else {
                Some(Vec::new())
            }
        },
    }
}

/// The parent of a path.
pub fn parent(path: &str) -> (res: Option<String>)
    ensures
        match res {
            Some(parent) => spec_parent(path@) == Some(parent@),
            None => spec_parent(path@) is None,
        },
{
    let chars = chars_of(path);
    match parent_chars(chars.as_slice()) {
        Some(p) => Some(string_of(p.as_slice())),
        None => None,
    }
}

/// Appends all of `tail` to `out`.
pub fn push_all(out: &mut Vec<char>, tail: &[char])
    ensures
        final(out)@ == old(out)@ + tail@,
{
    let mut i: usize = 0;
    while i < tail.len()
        invariant
            i <= tail.len(),
            out@ == old(out)@ + tail@.take(i as int),
        decreases tail.len() - i,
    {
        out.push(tail[i]);
        assert(tail@.take(i + 1) =~= tail@.take(i as int).push(tail@[i as int]));
        assert(out@ =~= old(out)@ + tail@.take(i + 1));
        i = i + 1;
    }
    assert(tail@.take(tail.len() as int) =~= tail@);
}

/// The characters of `rel` appended to `base`.
pub fn join_chars(base: &[char], rel: &[char]) -> (res: Vec<char>)
    ensures
        res@ == spec_join(base@, rel@),
{
    let mut res: Vec<char> = Vec::new();
    if (rel.len() > 0 && rel[0] == '/') || base.len() == 0 {
        push_all(&mut res, rel);
        assert(res@ =~= rel@);
    } else {
        push_all(&mut res, base);
        if base[base.len() - 1] != '/' {
            res.push('/');
        }
        push_all(&mut res, rel);
        assert(res@ =~= spec_join(base@, rel@));
    }
    res
}

/// Appends `rel` to `base`.
pub fn join(base: &str, rel: &str) -> (res: String)
    ensures
        res@ == spec_join(base@, rel@),
{
    let b = chars_of(base);
    let r = chars_of(rel);
    let joined = join_chars(b.as_slice(), r.as_slice());
    string_of(joined.as_slice())
}

/// What is left of `path` below the directory `base`.
pub fn strip_prefix(path: &str, base: &str) -> (res: Option<String>)
    ensures
        match res {
            Some(rest) => spec_strip_prefix(path@, base@) == Some(rest@),
            None => spec_strip_prefix(path@, base@) is None,
        },
{
    let p = chars_of(path);
    let b = chars_of(base);
    if b.len() == 0 {
        return Some(string_of(p.as_slice()));
    }
    if !matches_at(p.as_slice(), b.as_slice(), 0) {
        proof {
            if p@ == b@ {
                assert(p@.subrange(0, b@.len() as int) =~= b@);
            }
            if occurs_at(p@, b@ + seq!['/'], 0) {
                assert(p@.subrange(0, b@.len() as int) =~= p@.subrange(0, b@.len() as int + 1).take(
                    b@.len() as int,
                ));
                assert((b@ + seq!['/']).take(b@.len() as int) =~= b@);
            }
        }
        return None;
    }
    if p.len() == b.len() {
        assert(p@.subrange(0, b@.len() as int) =~= p@);
        return Some(String::new());
    }
    assert(p@ != b@);
    if b[b.len() - 1] == '/' {
        let rest = vstd::slice::slice_subrange(p.as_slice(), b.len(), p.len());
        assert(rest@ =~= p@.skip(b@.len() as int));
        return Some(string_of(rest));
    }
    if p[b.len()] == '/' {
        let rest = vstd::slice::slice_subrange(p.as_slice(), b.len() + 1, p.len());
        assert(rest@ =~= p@.skip(b@.len() as int + 1));
        assert(p@.subrange(0, b@.len() as int + 1) =~= b@ + seq!['/']) by {
            assert(p@.subrange(0, b@.len() as int) == b@);
            assert forall|k: int| 0 <= k < b@.len() as int + 1 implies p@.subrange(0, b@.len() as int + 1)[k]
                == (b@ + seq!['/'])[k] by {
                if k < b@.len() {
                    assert(p@.subrange(0, b@.len() as int)[k] == p@[k]);
                }
            }
        }
        return Some(string_of(rest));
    }
    proof {
        if occurs_at(p@, b@ + seq!['/'], 0) {
            assert(p@.subrange(0, b@.len() as int + 1)[b@.len() as int] == p@[b@.len() as int]);
            assert((b@ + seq!['/'])[b@.len() as int] == '/');
        }
    }
    None
}

/// The characters of a file name without its extension.
pub fn stem_of(name: &[char]) -> (res: &[char])
    ensures
        res@ == spec_stem_of(name@),
{
    proof {
        lemma_last_index_of(name@, '.');
    }
    match last_index_of(name, '.') {
        Some(i) => {
            if i == 0 {
                name
            } else {
                let stem = vstd::slice::slice_subrange(name, 0, i);
                assert(stem@ =~= name@.take(i as int));
                stem
            }
        },
        None => name,
    }
}

/// The file name of a path without its extension.
pub fn file_stem(path: &str) -> (res: Option<String>)
    ensures
        match res {
            Some(stem) => spec_file_stem(path@) == Some(stem@),
            None => spec_file_stem(path@) is None,
        },
{
    let chars = chars_of(path);
    match file_name_chars(chars.as_slice()) {
        Some(name) => Some(string_of(stem_of(name))),
        None => None,
    }
}

/// The path with the extension of its file name removed.
pub fn without_extension(path: &str) -> (res: String)
    ensures
        res@ == spec_without_extension(path@),
{
    let chars = chars_of(path);
    match file_name_chars(chars.as_slice()) {
        Some(name) => {
            let mut out = vstd::slice::slice_to_vec(
                vstd::slice::slice_subrange(chars.as_slice(), 0, chars.len() - name.len()),
            );
            assert(out@ =~= path@.take(path@.len() - name@.len()));
            push_all(&mut out, stem_of(name));
            string_of(out.as_slice())
        },
        None => path.to_owned(),
    }
}

} // verus!
