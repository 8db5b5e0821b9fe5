//! File names of the reordered outputs and of the hook log, built with `std::path`.
//! Paths are parsed as `std::path` parses them on the platform the library is built for.
use vstd::prelude::*;
use std::path::Path;
use crate::jsonl::string_push;

verus! {

/// What `Path::file_name` gives for the path `path`: the final component, or `None` where
/// the path ends in `..` or is a root or empty.
pub uninterp spec fn path_file_name(path: Seq<char>) -> Option<Seq<char>>;

/// What `Path::parent` gives for the path `path`: the path without its final component, or
/// `None` where it ends in a root or is empty.
pub uninterp spec fn path_parent(path: Seq<char>) -> Option<Seq<char>>;

/// What `Path::join` gives for `base` joined with `name`.
pub uninterp spec fn path_join(base: Seq<char>, name: Seq<char>) -> Seq<char>;

/// The text of an optional string.
pub open spec fn optional_text(s: Option<String>) -> Option<Seq<char>> {
    match s {
        Some(t) => Some(t@),
        None => None,
    }
}

/// `Path::file_name`, as text.
#[verifier::external_body]
fn file_name_of(path: &str) -> (r: Option<String>)
    ensures
        optional_text(r) == path_file_name(path@),
{
    match Path::new(path).file_name() {
        Some(name) => Some(name.to_string_lossy().into_owned()),
        None => None,
    }
}

/// `Path::parent`, as text.
#[verifier::external_body]
fn parent_of(path: &str) -> (r: Option<String>)
    ensures
        optional_text(r) == path_parent(path@),
{
    match Path::new(path).parent() {
        Some(parent) => Some(parent.to_string_lossy().into_owned()),
        None => None,
    }
}

/// `Path::join`, as text.
#[verifier::external_body]
fn join_paths(base: &str, name: &str) -> (r: String)
    ensures
        r@ == path_join(base@, name@),
{
    Path::new(base).join(name).to_string_lossy().into_owned()
}

/// The directory that holds the file at `path`: its parent, or the current directory.
pub open spec fn parent_or_current(path: Seq<char>) -> Seq<char> {
    match path_parent(path) {
        Some(parent) => parent,
        None => "."@,
    }
}

/// `s` without `suffix` at its end, where it ends with it.
pub open spec fn without_suffix(s: Seq<char>, suffix: Seq<char>) -> Seq<char> {
    if s.len() >= suffix.len() && s.skip(s.len() - suffix.len()) == suffix {
        s.take(s.len() - suffix.len())
    } else {
        s
    }
}

/// The compressed-file extension stripped from an input's name.
pub open spec fn zst_extension() -> Seq<char> {
    seq!['.', 'z', 's', 't']
}

/// The JSON Lines extension stripped after it.
pub open spec fn jsonl_extension() -> Seq<char> {
    seq!['.', 'j', 's', 'o', 'n', 'l']
}

/// An input file name without a trailing `.zst`, and then without a trailing `.jsonl`.
pub open spec fn base_name(file_name: Seq<char>) -> Seq<char> {
    without_suffix(without_suffix(file_name, zst_extension()), jsonl_extension())
}

/// The file name of an output: `{base}_{suffix}.jsonl.zst`.
pub open spec fn output_file_name(file_name: Seq<char>, suffix: Seq<char>) -> Seq<char> {
    base_name(file_name) + "_"@ + suffix + ".jsonl.zst"@
}

/// The output path that `generate_output_path` gives.
pub open spec fn output_path(input_path: Seq<char>, suffix: Seq<char>) -> Seq<char> {
    path_join(
        parent_or_current(input_path),
        output_file_name(path_file_name(input_path)->0, suffix),
    )
}

/// Distinct suffixes give distinct output file names for the same input name.
pub proof fn law_distinct_suffixes_name_distinct_files(
    file_name: Seq<char>,
    suffix1: Seq<char>,
    suffix2: Seq<char>,
)
    requires
        suffix1 != suffix2,
    ensures
        output_file_name(file_name, suffix1) != output_file_name(file_name, suffix2),
{
    let head = base_name(file_name) + "_"@;
    let tail = ".jsonl.zst"@;
    let n1 = output_file_name(file_name, suffix1);
    let n2 = output_file_name(file_name, suffix2);
    assert(n1 == head + suffix1 + tail);
    assert(n2 == head + suffix2 + tail);
    assert(n1.len() == head.len() + suffix1.len() + tail.len());
    assert(n2.len() == head.len() + suffix2.len() + tail.len());
    if suffix1.len() == suffix2.len() && n1 == n2 {
        assert(n1.subrange(head.len() as int, (head.len() + suffix1.len()) as int) =~= suffix1);
        assert(n2.subrange(head.len() as int, (head.len() + suffix2.len()) as int) =~= suffix2);
    }
}

/// The characters of a string, in a vector.
pub(crate) fn chars_of(s: &str) -> (r: Vec<char>)
    ensures
        r@ == s@,
{
    let mut out: Vec<char> = Vec::new();
    for c in it: s.chars()
        invariant
            it.seq() == s@,
            out@ == s@.take(it.index() as int),
    {
        proof {
            assert(s@.take(out@.len() + 1 as int) =~= out@.push(c));
        }
        out.push(c);
    }
    proof {
        assert(s@.take(out@.len() as int) =~= s@);
    }
    out
}

/// `text` without `suffix` at its end, where it ends with it.
fn strip_suffix(text: Vec<char>, suffix: &Vec<char>) -> (r: Vec<char>)
    ensures
        r@ == without_suffix(text@, suffix@),
{
    let n = text.len();
    let m = suffix.len();
    if n < m {
        return text;
    }
    let mut k: usize = 0;
    while k < m
        invariant
            k <= m <= n,
            n == text@.len(),
            m == suffix@.len(),
            forall|j: int| 0 <= j < k ==> text@[n - m + j] == suffix@[j],
        decreases m - k,
    {
        if text[n - m + k] != suffix[k] {
            proof {
                assert(text@.skip(n - m)[k as int] != suffix@[k as int]);
            }
            return text;
        }
        k += 1;
    }
    proof {
        assert(text@.skip(n - m) =~= suffix@);
    }
    let mut r: Vec<char> = Vec::new();
    let mut k: usize = 0;
    while k < n - m
        invariant
            k <= n - m,
            n == text@.len(),
            m == suffix@.len(),
            r@ == text@.take(k as int),
        decreases n - m - k,
    {
        r.push(text[k]);
        assert(r@ =~= text@.take(k + 1));
        k += 1;
    }
    r
}

/// The base of an input file name: without a trailing `.zst`, then without a trailing
/// `.jsonl`.
fn base_of(file_name: &str) -> (r: String)
    ensures
        r@ == base_name(file_name@),
{
    let zst = vec!['.', 'z', 's', 't'];
    let jsonl = vec!['.', 'j', 's', 'o', 'n', 'l'];
    assert(zst@ =~= zst_extension());
    assert(jsonl@ =~= jsonl_extension());
    let chars = strip_suffix(strip_suffix(chars_of(file_name), &zst), &jsonl);
    let mut r = String::new();
    let n = chars.len();
    let mut k: usize = 0;
    while k < n
        invariant
            k <= n,
            n == chars@.len(),
            chars@ == base_name(file_name@),
            r@ == chars@.take(k as int),
        decreases n - k,
    {
        string_push(&mut r, chars[k]);
        assert(r@ =~= chars@.take(k + 1));
        k += 1;
    }
    assert(chars@.take(n as int) =~= chars@);
    r
}

/// Generate output filename by stripping .zst extension and adding suffix.
///
/// The file goes beside the input (in the current directory where the input path has no
/// parent) and is named `{base}_{suffix}.jsonl.zst`, where `base` is the input's file name
/// without a trailing `.zst` and then without a trailing `.jsonl`.
pub fn generate_output_path(input_path: &str, suffix: &str) -> (r: String)
    requires
        path_file_name(input_path@) is Some,
    ensures
        r@ == output_path(input_path@, suffix@),
{
    let name = match file_name_of(input_path) {
        Some(name) => name,
        None => {
            proof {
                assert(false);
            }
            String::new()
        },
    };
    let base = base_of(name.as_str());
    let parent = match parent_of(input_path) {
        Some(parent) => parent,
        None => String::from_str("."),
    };
    let mut name = base;
    name.append("_");
    name.append(suffix);
    name.append(".jsonl.zst");
    join_paths(parent.as_str(), name.as_str())
}

/// The output path for `input_path`, or `None` where the path has no file name to build one
/// from.
pub fn output_path_for(input_path: &str, suffix: &str) -> (r: Option<String>)
    ensures
        r is None <==> path_file_name(input_path@) is None,
        r matches Some(p) ==> p@ == output_path(input_path@, suffix@),
{
    match file_name_of(input_path) {
        Some(_) => Some(generate_output_path(input_path, suffix)),
        None => None,
    }
}

/// Why the log file path cannot be used.
#[derive(Debug, PartialEq, Eq)]
pub enum LogPathError {
    /// The path has no file name.
    InvalidLogFilePath,
}

/// The directory and the file name of the log file at `log_file`: its parent directory (the
/// current directory where it has none) and its file name, which it must have.
pub fn log_file_location(log_file: &str) -> (r: Result<(String, String), LogPathError>)
    ensures
        path_file_name(log_file@) is None ==> r == Err::<(String, String), LogPathError>(
            LogPathError::InvalidLogFilePath,
        ),
        r matches Ok((dir, name)) ==> dir@ == parent_or_current(log_file@) && Some(name@)
            == path_file_name(log_file@),
        path_file_name(log_file@) is Some ==> r is Ok,
{
    let dir = match parent_of(log_file) {
        Some(parent) => parent,
        None => String::from_str("."),
    };
    match file_name_of(log_file) {
        Some(name) => Ok((dir, name)),
        None => Err(LogPathError::InvalidLogFilePath),
    }
}

} // verus!
