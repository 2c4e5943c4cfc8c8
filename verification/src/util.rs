//! Helpers of the command line: archive file names, output paths and the sorting of the
//! inputs into archives to extract and files to pack.
//!
//! Nothing here looks at a file system. Where the answer depends on what exists on
//! disk, the caller says what it found.

use vstd::prelude::*;
use crate::builder::PathKind;
use crate::error::{Error, invalid_format};
use crate::paths::{
    file_name_chars,
    file_stem,
    join,
    join_chars,
    last_index_of,
    lemma_last_index_of,
    parent,
    parent_chars,
    push_all,
    spec_file_name,
    spec_file_stem,
    spec_join,
    spec_last_dot,
    spec_parent,
    spec_without_extension,
    without_extension,
};
use crate::text::{
    chars_of,
    contains_seq,
    find,
    first_occurrence,
    same_chars,
    string_of,
    string_views,
};
use crate::utils::{
    pathbuf_to_pf8_path,
    pf8_path_to_pathbuf,
    spec_pathbuf_to_pf8_path,
    spec_pf8_path_to_pathbuf,
};

verus! {

/// The mark of an archive file name.
pub open spec fn pfs_mark() -> Seq<char> {
    seq!['.', 'p', 'f', 's']
}

fn pfs_mark_chars() -> (mark: Vec<char>)
    ensures
        mark@ == pfs_mark(),
{
    let mut mark: Vec<char> = Vec::new();
    mark.push('.');
    mark.push('p');
    mark.push('f');
    mark.push('s');
    assert(mark@ =~= pfs_mark());
    mark
}

/// The format version that the magic bytes announce: 8 for `pf8`, 6 for `pf6`.
pub fn get_pfs_version_from_data(data: &[u8]) -> (res: Result<usize, Error>)
    requires
        data@.len() >= 3,
    ensures
        match res {
            Ok(v) => data@[0] == 0x70 && data@[1] == 0x66 && (if v == 8 {
                data@[2] == 0x38
            } else {
                v == 6 && data@[2] == 0x36
            }),
            Err(Error::InvalidFormat(_)) => !(data@[0] == 0x70 && data@[1] == 0x66 && (data@[2]
                == 0x38 || data@[2] == 0x36)),
            Err(_) => false,
        },
{
    if data[0] == 0x70 && data[1] == 0x66 && data[2] == 0x38 {
        Ok(8)
    } else if data[0] == 0x70 && data[1] == 0x66 && data[2] == 0x36 {
        Ok(6)
    } else {
        Err(invalid_format("The file is not a pf8 or pf6 file"))
    }
}

/// Converts an archive name (backslash-separated) to a forward-slash path.
pub fn pf8_filename_str_to_path(s: &str) -> (path: String)
    ensures
        path@ == spec_pf8_path_to_pathbuf(s@),
{
    pf8_path_to_pathbuf(s)
}

/// Converts a forward-slash path to an archive name (backslash-separated).
pub fn path_to_pf8_filename_string(path: &str) -> (name: String)
    ensures
        name@ == spec_pathbuf_to_pf8_path(path@),
{
    pathbuf_to_pf8_path(path)
}

/// Tests whether `s` is one of the strings of the list.
pub fn search_str_in_vec(vec: &[&str], s: &str) -> (found: bool)
    ensures
        found == exists|i: int| 0 <= i < vec@.len() && (#[trigger] vec@[i])@ == s@,
{
    let wanted = chars_of(s);
    let mut i: usize = 0;
    while i < vec.len()
        invariant
            i <= vec.len(),
            wanted@ == s@,
            forall|j: int| 0 <= j < i ==> (#[trigger] vec@[j])@ != s@,
        decreases vec.len() - i,
    {
        let candidate = chars_of(vec[i]);
        if same_chars(candidate.as_slice(), wanted.as_slice()) {
            return true;
        }
        i = i + 1;
    }
    false
}

/// The extension of the file name of a path: what follows its last `.`, unless the
/// name has no `.` or begins with its only one.
pub open spec fn spec_extension(p: Seq<char>) -> Option<Seq<char>> {
    match spec_file_name(p) {
        Some(name) => match spec_last_dot(name) {
            Some(i) => if i == 0 {
                None
            } else {
                Some(name.skip(i + 1))
            },
            None => None,
        },
        None => None,
    }
}

/// The extension of the file name of a path.
pub fn get_str_extension(s: &str) -> (res: Option<String>)
    ensures
        match res {
            Some(ext) => spec_extension(s@) == Some(ext@),
            None => spec_extension(s@) is None,
        },
{
    let chars = chars_of(s);
    let name = match file_name_chars(chars.as_slice()) {
        Some(name) => name,
        None => {
            return None;
        },
    };
    proof {
        lemma_last_index_of(name@, '.');
    }
    match last_index_of(name, '.') {
        Some(i) => {
            if i == 0 {
                None
            } else {
                let ext = vstd::slice::slice_subrange(name, i + 1, name.len());
                assert(ext@ =~= name@.skip(i + 1));
                Some(string_of(ext))
            }
        },
        None => None,
    }
}

/// Whether a path names an archive: its file name holds `.pfs`.
pub open spec fn spec_is_pfs_name(p: Seq<char>) -> bool {
    match spec_file_name(p) {
        Some(name) => contains_seq(name, pfs_mark()),
        None => false,
    }
}

/// Tests whether a path names an archive.
pub fn is_file_pf8_from_filename(path: &str) -> (res: bool)
    ensures
        res == spec_is_pfs_name(path@),
{
    let chars = chars_of(path);
    match file_name_chars(chars.as_slice()) {
        Some(name) => {
            let mark = pfs_mark_chars();
            find(name, mark.as_slice()).is_some()
        },
        None => false,
    }
}

/// Tests whether a name has the form `*.pfs.xxx`: something follows its first `.pfs.`.
pub fn is_pfs_xxx(name: &str) -> (res: bool)
    ensures
        res == (first_occurrence(name@, pfs_mark().push('.')) matches Some(i) && name@.len() > i
            + 5),
{
    let chars = chars_of(name);
    let mut mark = pfs_mark_chars();
    mark.push('.');
    match find(chars.as_slice(), mark.as_slice()) {
        Some(pos) => chars.len() - pos > 5,
        None => false,
    }
}

/// The base name of an archive: its file name up to the first `.pfs`, or the whole file
/// name if it holds none.
pub open spec fn spec_pfs_basename(p: Seq<char>) -> Option<Seq<char>> {
    match spec_file_name(p) {
        Some(name) => match first_occurrence(name, pfs_mark()) {
            Some(i) => Some(name.take(i)),
            None => Some(name),
        },
        None => None,
    }
}

/// The base name of an archive.
pub fn get_pfs_basename(input: &str) -> (res: Result<String, Error>)
    ensures
        match res {
            Ok(base) => spec_pfs_basename(input@) == Some(base@),
            Err(Error::InvalidFormat(_)) => spec_pfs_basename(input@) is None,
            Err(_) => false,
        },
{
    let chars = chars_of(input);
    let name = match file_name_chars(chars.as_slice()) {
        Some(name) => name,
        None => {
            return Err(invalid_format("Failed to get file name"));
        },
    };
    let mark = pfs_mark_chars();
    match find(name, mark.as_slice()) {
        Some(pos) => {
            let base = vstd::slice::slice_subrange(name, 0, pos);
            assert(base@ =~= name@.take(pos as int));
            Ok(string_of(base))
        },
        None => Ok(string_of(name)),
    }
}

/// The path of an archive without `.pfs` and what follows it: the parent of the path
/// joined with the base name.
pub open spec fn spec_pfs_basepath(p: Seq<char>) -> Option<Seq<char>> {
    match spec_file_name(p) {
        Some(name) => match first_occurrence(name, pfs_mark()) {
            Some(i) => match spec_parent(p) {
                Some(dir) => Some(spec_join(dir, name.take(i))),
                None => None,
            },
            None => None,
        },
        None => None,
    }
}

/// The path of an archive without `.pfs` and what follows it.
pub fn get_pfs_basepath(input: &str) -> (res: Result<String, Error>)
    ensures
        match res {
            Ok(path) => spec_pfs_basepath(input@) == Some(path@),
            Err(Error::InvalidFormat(_)) => spec_pfs_basepath(input@) is None,
            Err(_) => false,
        },
{
    let chars = chars_of(input);
    let name = match file_name_chars(chars.as_slice()) {
        Some(name) => name,
        None => {
            return Err(invalid_format("Failed to get file name"));
        },
    };
    let mark = pfs_mark_chars();
    let pos = match find(name, mark.as_slice()) {
        Some(pos) => pos,
        None => {
            return Err(invalid_format("Invalid file name"));
        },
    };
    let base = match parent_chars(chars.as_slice()) {
        Some(base) => base,
        None => {
            return Err(invalid_format("Invalid file name"));
        },
    };
    let stem = vstd::slice::slice_subrange(name, 0, pos);
    assert(stem@ =~= name@.take(pos as int));
    let joined = join_chars(base.as_slice(), stem);
    Ok(string_of(joined.as_slice()))
}

/// The directory to extract an archive to. Where an output directory is given, it is
/// that directory, or, in separate mode, the file stem of the archive below it.
/// Otherwise it is the path of the archive without `.pfs` and what follows, or, for a
/// path that does not name an archive, without its extension.
pub fn determine_extract_output(input: &str, specified_output: Option<&str>, separate: bool) -> (res:
    String)
    requires
        specified_output is Some && separate ==> spec_file_name(input@) is Some,
    ensures
        match specified_output {
            Some(output) => if separate {
                res@ == spec_join(output@, spec_file_stem(input@)->0)
            } else {
                res@ == output@
            },
            None => match spec_pfs_basepath(input@) {
                Some(path) => res@ == path,
                None => res@ == spec_without_extension(input@),
            },
        },
{
    match specified_output {
        Some(output) => {
            if separate {
                match file_stem(input) {
                    Some(stem) => join(output, stem.as_str()),
                    None => output.to_owned(),
                }
            } else {
                output.to_owned()
            }
        },
        None => match get_pfs_basepath(input) {
            Ok(path) => path,
            Err(_) => without_extension(input),
        },
    }
}

/// The decimal digit `d`.
pub open spec fn spec_digit(d: int) -> char {
    if d == 0 {
        '0'
    } else if d == 1 {
        '1'
    } else if d == 2 {
        '2'
    } else if d == 3 {
        '3'
    } else if d == 4 {
        '4'
    } else if d == 5 {
        '5'
    } else if d == 6 {
        '6'
    } else if d == 7 {
        '7'
    } else if d == 8 {
        '8'
    } else {
        '9'
    }
}

/// The decimal digits of `n`.
pub open spec fn spec_decimal(n: nat) -> Seq<char>
    decreases n,
{
    if n < 10 {
        seq![spec_digit(n as int)]
    } else {
        spec_decimal(n / 10).push(spec_digit((n % 10) as int))
    }
}

/// The decimal digits of `n`, with zeros before them where there are fewer than three.
pub open spec fn spec_three_digits(n: nat) -> Seq<char> {
    if n < 10 {
        seq!['0', '0'] + spec_decimal(n)
    } else if n < 100 {
        seq!['0'] + spec_decimal(n)
    } else {
        spec_decimal(n)
    }
}

fn digit(d: usize) -> (c: char)
    requires
        d < 10,
    ensures
        c == spec_digit(d as int),
{
    if d == 0 {
        '0'
    } else if d == 1 {
        '1'
    } else if d == 2 {
        '2'
    } else if d == 3 {
        '3'
    } else if d == 4 {
        '4'
    } else if d == 5 {
        '5'
    } else if d == 6 {
        '6'
    } else if d == 7 {
        '7'
    } else if d == 8 {
        '8'
    } else {
        '9'
    }
}

fn decimal(n: usize) -> (digits: Vec<char>)
    ensures
        digits@ == spec_decimal(n as nat),
    decreases n,
{
    if n < 10 {
        let mut digits: Vec<char> = Vec::new();
        digits.push(digit(n));
        assert(digits@ =~= seq![spec_digit(n as int)]);
        digits
    } else {
        let mut digits = decimal(n / 10);
        digits.push(digit(n % 10));
        digits
    }
}

/// The name of an archive with the given base name: `base.pfs`, or `base.pfs.` and a
/// number of three digits or more.
pub open spec fn spec_pfs_file_name(base: Seq<char>, number: Option<nat>) -> Seq<char> {
    match number {
        None => base + pfs_mark(),
        Some(n) => base + pfs_mark() + seq!['.'] + spec_three_digits(n),
    }
}

/// The path of the archive with the given base name and number in a directory.
pub open spec fn spec_candidate(dir: Seq<char>, base: Seq<char>, number: Option<nat>) -> Seq<char> {
    spec_join(dir, spec_pfs_file_name(base, number))
}

fn candidate(dir: &[char], base: &[char], number: Option<usize>) -> (path: Vec<char>)
    ensures
        path@ == spec_candidate(
            dir@,
            base@,
            match number {
                Some(n) => Some(n as nat),
                None => None,
            },
        ),
{
    let mut name: Vec<char> = Vec::new();
    push_all(&mut name, base);
    let mark = pfs_mark_chars();
    push_all(&mut name, mark.as_slice());
    match number {
        Some(n) => {
            name.push('.');
            if n < 100 {
                name.push('0');
            }
            if n < 10 {
                name.push('0');
            }
            let digits = decimal(n);
            push_all(&mut name, digits.as_slice());
            assert(name@ =~= spec_pfs_file_name(base@, Some(n as nat)));
        },
        None => {
            assert(name@ =~= spec_pfs_file_name(base@, None));
        },
    }
    join_chars(dir, name.as_slice())
}

/// Whether `path` is one of the paths that exist.
pub open spec fn is_taken(existing: Seq<Seq<char>>, path: Seq<char>) -> bool {
    exists|k: int| 0 <= k < existing.len() && #[trigger] existing[k] == path
}

fn taken(existing: &[String], path: &[char]) -> (res: bool)
    ensures
        res == is_taken(string_views(existing@), path@),
{
    let mut k: usize = 0;
    while k < existing.len()
        invariant
            k <= existing.len(),
            forall|j: int| 0 <= j < k ==> #[trigger] string_views(existing@)[j] != path@,
        decreases existing.len() - k,
    {
        let other = chars_of(existing[k].as_str());
        if same_chars(other.as_slice(), path) {
            assert(string_views(existing@)[k as int] == path@);
            return true;
        }
        k = k + 1;
    }
    false
}

/// The first numbered archive path from number `from` up to number `limit` that does
/// not exist.
pub open spec fn spec_numbered_free(
    dir: Seq<char>,
    base: Seq<char>,
    existing: Seq<Seq<char>>,
    from: nat,
    limit: nat,
) -> Option<Seq<char>>
    decreases limit + 1 - from,
{
    if from > limit {
        None
    } else if !is_taken(existing, spec_candidate(dir, base, Some(from))) {
        Some(spec_candidate(dir, base, Some(from)))
    } else {
        spec_numbered_free(dir, base, existing, from + 1, limit)
    }
}

/// The archive path to write to so that nothing that exists is overwritten:
/// `base.pfs` in the directory if that does not exist, else the first of
/// `base.pfs.000`, `base.pfs.001` and so on that does not exist. As many numbers are
/// tried as there are existing paths, and one more.
pub open spec fn spec_next_nonexist(dir: Seq<char>, base: Seq<char>, existing: Seq<Seq<char>>) -> Option<
    Seq<char>,
> {
    if !is_taken(existing, spec_candidate(dir, base, None)) {
        Some(spec_candidate(dir, base, None))
    } else {
        spec_numbered_free(dir, base, existing, 0, existing.len())
    }
}

/// Finds an archive path in `dir` that does not exist yet. `existing` are the paths
/// that exist, as the caller found them.
pub fn try_get_next_nonexist_pfs(dir: &str, base: &str, existing: &[String]) -> (res: Result<
    String,
    Error,
>)
    ensures
        match res {
            Ok(path) => spec_next_nonexist(dir@, base@, string_views(existing@)) == Some(path@),
            Err(Error::InvalidFormat(_)) => spec_next_nonexist(
                dir@,
                base@,
                string_views(existing@),
            ) is None,
            Err(_) => false,
        },
{
    let d = chars_of(dir);
    let b = chars_of(base);
    let plain = candidate(d.as_slice(), b.as_slice(), None);
    if !taken(existing, plain.as_slice()) {
        return Ok(string_of(plain.as_slice()));
    }
    let limit = existing.len();
    let ghost paths = string_views(existing@);
    let mut i: usize = 0;
    loop
        invariant
            i <= limit,
            limit == existing@.len(),
            paths == string_views(existing@),
            d@ == dir@,
            b@ == base@,
            is_taken(paths, spec_candidate(dir@, base@, None)),
            spec_numbered_free(dir@, base@, paths, 0, limit as nat) == spec_numbered_free(
                dir@,
                base@,
                paths,
                i as nat,
                limit as nat,
            ),
        decreases limit - i,
    {
        let numbered = candidate(d.as_slice(), b.as_slice(), Some(i));
        if !taken(existing, numbered.as_slice()) {
            return Ok(string_of(numbered.as_slice()));
        }
        if i == limit {
            assert(spec_numbered_free(dir@, base@, paths, (i + 1) as nat, limit as nat) is None);
            return Err(invalid_format("No free archive name found"));
        }
        i = i + 1;
    }
}

/// The path that is written to: the suggested path itself where it may be overwritten
/// or has no parent or file stem, else a path beside it that does not exist yet.
pub open spec fn spec_final_output_path(
    suggested: Seq<char>,
    overwrite: bool,
    existing: Seq<Seq<char>>,
) -> Option<Seq<char>> {
    if overwrite {
        Some(suggested)
    } else {
        match (spec_parent(suggested), spec_file_stem(suggested)) {
            (Some(dir), Some(stem)) => spec_next_nonexist(dir, stem, existing),
            _ => Some(suggested),
        }
    }
}

/// Decides the path that is written to.
pub fn get_final_output_path(suggested_output: &str, overwrite: bool, existing: &[String]) -> (res:
    Result<String, Error>)
    ensures
        match res {
            Ok(path) => spec_final_output_path(
                suggested_output@,
                overwrite,
                string_views(existing@),
            ) == Some(path@),
            Err(Error::InvalidFormat(_)) => spec_final_output_path(
                suggested_output@,
                overwrite,
                string_views(existing@),
            ) is None,
            Err(_) => false,
        },
{
    if overwrite {
        return Ok(suggested_output.to_owned());
    }
    match parent(suggested_output) {
        Some(dir) => match file_stem(suggested_output) {
            Some(stem) => try_get_next_nonexist_pfs(dir.as_str(), stem.as_str(), existing),
            None => Ok(suggested_output.to_owned()),
        },
        None => Ok(suggested_output.to_owned()),
    }
}

/// The archive file that is packed to. A given output that is a directory stands for
/// `root.pfs` in it, as does the current directory where no output is given; any other
/// given output is taken as it is.
pub open spec fn spec_pack_output(
    specified: Option<(Seq<char>, PathKind)>,
    current_dir: Seq<char>,
    overwrite: bool,
    existing: Seq<Seq<char>>,
) -> Option<Seq<char>> {
    let dir = match specified {
        Some((output, kind)) => if kind == PathKind::Directory {
            Some(output)
        } else {
            None
        },
        None => Some(current_dir),
    };
    match dir {
        Some(d) => if overwrite {
            Some(spec_candidate(d, seq!['r', 'o', 'o', 't'], None))
        } else {
            spec_next_nonexist(d, seq!['r', 'o', 'o', 't'], existing)
        },
        None => match specified {
            Some((output, _)) => Some(output),
            None => None,
        },
    }
}

/// Decides the archive file that is packed to.
pub fn determine_pack_output(
    specified_output: Option<(&str, PathKind)>,
    current_dir: &str,
    overwrite: bool,
    existing: &[String],
) -> (res: Result<String, Error>)
    ensures
        match res {
            Ok(path) => spec_pack_output(
                match specified_output {
                    Some((output, kind)) => Some((output@, kind)),
                    None => None,
                },
                current_dir@,
                overwrite,
                string_views(existing@),
            ) == Some(path@),
            Err(Error::InvalidFormat(_)) => spec_pack_output(
                match specified_output {
                    Some((output, kind)) => Some((output@, kind)),
                    None => None,
                },
                current_dir@,
                overwrite,
                string_views(existing@),
            ) is None,
            Err(_) => false,
        },
{
    let dir: &str = match specified_output {
        Some((output, kind)) => {
            if kind == PathKind::Directory {
                output
            } else {
                return Ok(output.to_owned());
            }
        },
        None => current_dir,
    };
    proof {
        reveal_strlit("root");
        assert("root"@ =~= seq!['r', 'o', 'o', 't']);
    }
    if overwrite {
        let d = chars_of(dir);
        let root = chars_of("root");
        let path = candidate(d.as_slice(), root.as_slice(), None);
        Ok(string_of(path.as_slice()))
    } else {
        try_get_next_nonexist_pfs(dir, "root", existing)
    }
}

/// What the inputs of the command line turn out to be.
#[derive(Debug)]
pub enum InputType {
    /// Archives, to be extracted.
    PfsFiles(Vec<String>),
    /// Directories and files, to be packed.
    PackFiles { dirs: Vec<String>, files: Vec<String> },
}

/// Mathematical value of an [`InputType`].
pub ghost enum InputTypeView {
    PfsFiles(Seq<Seq<char>>),
    PackFiles { dirs: Seq<Seq<char>>, files: Seq<Seq<char>> },
}

impl View for InputType {
    type V = InputTypeView;

    open spec fn view(&self) -> InputTypeView {
        match self {
            InputType::PfsFiles(paths) => InputTypeView::PfsFiles(string_views(paths@)),
            InputType::PackFiles { dirs, files } => InputTypeView::PackFiles {
                dirs: string_views(dirs@),
                files: string_views(files@),
            },
        }
    }
}

/// The inputs sorted by kind, and the output that suggests itself.
#[derive(Debug)]
pub struct InputProcessResult {
    pub input_type: InputType,
    pub suggested_output: Option<String>,
}

/// Mathematical value of an [`InputProcessResult`].
pub ghost struct InputProcessView {
    pub input_type: InputTypeView,
    pub suggested_output: Option<Seq<char>>,
}

impl View for InputProcessResult {
    type V = InputProcessView;

    open spec fn view(&self) -> InputProcessView {
        InputProcessView {
            input_type: self.input_type@,
            suggested_output: match self.suggested_output {
                Some(path) => Some(path@),
                None => None,
            },
        }
    }
}

/// The kinds of input.
pub ghost enum InputClass {
    Archive,
    Directory,
    Regular,
    Invalid,
}

/// The kind of one input: a directory is a directory whatever its name; anything else
/// that exists and is named like an archive is an archive; any other regular file is a
/// file to pack; the rest is invalid.
pub open spec fn spec_class(input: (Seq<char>, PathKind)) -> InputClass {
    if input.1 == PathKind::Missing {
        InputClass::Invalid
    } else if input.1 == PathKind::Directory {
        InputClass::Directory
    } else if spec_is_pfs_name(input.0) {
        InputClass::Archive
    } else if input.1 == PathKind::File {
        InputClass::Regular
    } else {
        InputClass::Invalid
    }
}

/// The inputs of one kind, in their order.
pub open spec fn spec_select(inputs: Seq<(Seq<char>, PathKind)>, class: InputClass) -> Seq<
    Seq<char>,
>
    decreases inputs.len(),
{
    if inputs.len() == 0 {
        Seq::empty()
    } else if spec_class(inputs.last()) == class {
        spec_select(inputs.drop_last(), class).push(inputs.last().0)
    } else {
        spec_select(inputs.drop_last(), class)
    }
}

/// The first invalid input from position `from` on.
pub open spec fn spec_first_invalid(inputs: Seq<(Seq<char>, PathKind)>, from: int) -> Option<int>
    decreases inputs.len() - from,
{
    if from >= inputs.len() {
        None
    } else if spec_class(inputs[from]) == InputClass::Invalid {
        Some(from)
    } else {
        spec_first_invalid(inputs, from + 1)
    }
}

/// What `process_cli_inputs` makes of the inputs: the sorted inputs with the suggested
/// output, or the detail of the error.
///
/// There must be an input, every input must be valid, and archives must not stand
/// beside files or directories to pack. The output suggested for archives is the first
/// archive without `.pfs` and what follows; for files to pack it is `root.pfs` beside the
/// first directory, or beside the first file if there is no directory.
pub open spec fn spec_process(inputs: Seq<(Seq<char>, PathKind)>) -> Result<
    InputProcessView,
    Seq<char>,
> {
    let archives = spec_select(inputs, InputClass::Archive);
    let dirs = spec_select(inputs, InputClass::Directory);
    let files = spec_select(inputs, InputClass::Regular);
    if inputs.len() == 0 {
        Err("No input provided"@)
    } else if spec_first_invalid(inputs, 0) is Some {
        if inputs[spec_first_invalid(inputs, 0)->0].1 == PathKind::Missing {
            Err("Input path does not exist"@)
        } else {
            Err("Invalid input type"@)
        }
    } else if archives.len() > 0 && dirs.len() + files.len() > 0 {
        Err("Cannot mix PFS files and pack inputs (directories/files) in the same operation"@)
    } else if archives.len() > 0 {
        Ok(
            InputProcessView {
                input_type: InputTypeView::PfsFiles(archives),
                suggested_output: spec_pfs_basepath(archives[0]),
            },
        )
    } else if dirs.len() + files.len() > 0 {
        let first = if dirs.len() > 0 {
            dirs[0]
        } else {
            files[0]
        };
        Ok(
            InputProcessView {
                input_type: InputTypeView::PackFiles { dirs, files },
                suggested_output: match spec_parent(first) {
                    Some(dir) => Some(spec_join(dir, "root.pfs"@)),
                    None => None,
                },
            },
        )
    } else {
        Err("No valid input found"@)
    }
}

/// The inputs as pairs of path and kind.
pub open spec fn input_views(inputs: Seq<(String, PathKind)>) -> Seq<(Seq<char>, PathKind)> {
    inputs.map_values(|input: (String, PathKind)| (input.0@, input.1))
}

/// Sorts the inputs of the command line into archives to extract and directories and
/// files to pack. Each input comes with what the caller found at its path.
pub fn process_cli_inputs(inputs: &[(String, PathKind)]) -> (res: Result<InputProcessResult, Error>)
    ensures
        match res {
            Ok(r) => spec_process(input_views(inputs@)) == Ok::<InputProcessView, Seq<char>>(r@),
            Err(Error::InvalidFormat(m)) => spec_process(input_views(inputs@)) == Err::<
                InputProcessView,
                Seq<char>,
            >(m@),
            Err(_) => false,
        },
{
    if inputs.len() == 0 {
        return Err(invalid_format("No input provided"));
    }
    let ghost views = input_views(inputs@);
    let mut pfs_files: Vec<String> = Vec::new();
    let mut directories: Vec<String> = Vec::new();
    let mut regular_files: Vec<String> = Vec::new();
    let mut i: usize = 0;
    while i < inputs.len()
        invariant
            i <= inputs.len(),
            views == input_views(inputs@),
            spec_first_invalid(views, 0) == spec_first_invalid(views, i as int),
            string_views(pfs_files@) == spec_select(views.take(i as int), InputClass::Archive),
            string_views(directories@) == spec_select(
                views.take(i as int),
                InputClass::Directory,
            ),
            string_views(regular_files@) == spec_select(
                views.take(i as int),
                InputClass::Regular,
            ),
        decreases inputs.len() - i,
    {
        let kind = inputs[i].1;
        proof {
            assert(views.take(i + 1).drop_last() =~= views.take(i as int));
            assert(views.take(i + 1).last() == views[i as int]);
            assert(views[i as int] == (inputs@[i as int].0@, inputs@[i as int].1));
        }
        if kind == PathKind::Missing {
            return Err(invalid_format("Input path does not exist"));
        }
        if kind == PathKind::Directory {
            directories.push(inputs[i].0.clone());
            assert(string_views(directories@) =~= spec_select(
                views.take(i + 1),
                InputClass::Directory,
            ));
        } else if is_file_pf8_from_filename(inputs[i].0.as_str()) {
            pfs_files.push(inputs[i].0.clone());
            assert(string_views(pfs_files@) =~= spec_select(
                views.take(i + 1),
                InputClass::Archive,
            ));
        } else if kind == PathKind::File {
            regular_files.push(inputs[i].0.clone());
            assert(string_views(regular_files@) =~= spec_select(
                views.take(i + 1),
                InputClass::Regular,
            ));
        } else {
            return Err(invalid_format("Invalid input type"));
        }
        i = i + 1;
    }
    proof {
        assert(views.take(inputs.len() as int) =~= views);
    }
    let has_pfs = pfs_files.len() > 0;
    let has_pack_input = directories.len() > 0 || regular_files.len() > 0;
    if has_pfs && has_pack_input {
        Err(
            invalid_format(
                "Cannot mix PFS files and pack inputs (directories/files) in the same operation",
            ),
        )
    } else if has_pfs {
        let suggested_output = match get_pfs_basepath(pfs_files[0].as_str()) {
            Ok(path) => Some(path),
            Err(_) => None,
        };
        Ok(InputProcessResult { input_type: InputType::PfsFiles(pfs_files), suggested_output })
    } else if has_pack_input {
        let first: &str = if directories.len() > 0 {
            directories[0].as_str()
        } else {
            regular_files[0].as_str()
        };
        let suggested_output = match parent(first) {
            Some(dir) => Some(join(dir.as_str(), "root.pfs")),
            None => None,
        };
        Ok(
            InputProcessResult {
                input_type: InputType::PackFiles { dirs: directories, files: regular_files },
                suggested_output,
            },
        )
    } else {
        Err(invalid_format("No valid input found"))
    }
}

} // verus!
