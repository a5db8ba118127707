//! Path strings: splitting off the final component and computing where a
//! file's backup lands.
//!
//! A path here is a plain string.  Both `/` and `\` count as separators; the
//! final component is the non-empty run of characters after the last
//! separator, so a path that is empty or ends in a separator has none.
//! Joins use `/`.

use vstd::prelude::*;
use vstd::string::StrSliceExecFns;
use vstd::string::StringExecFns;

verus! {

/// Whether `c` separates path components.
pub open spec fn is_sep(c: char) -> bool {
    c == '/' || c == '\\'
}

/// The index just after the last separator of `s`; `0` when `s` has none.
pub open spec fn split_point(s: Seq<char>) -> int
    decreases s.len(),
{
    if s.len() == 0 {
        0
    } else if is_sep(s.last()) {
        s.len() as int
    } else {
        split_point(s.drop_last())
    }
}

/// The final component of `s`, when there is one.
pub open spec fn file_name_spec(s: Seq<char>) -> Option<Seq<char>> {
    if split_point(s) < s.len() {
        Some(s.subrange(split_point(s), s.len() as int))
    } else {
        None
    }
}

/// Everything up to and including the last separator of `s`.
pub open spec fn parent_spec(s: Seq<char>) -> Seq<char> {
    s.subrange(0, split_point(s))
}

/// The directory that receives backups of the file at `s`: a `bak`
/// directory beside the file.
pub open spec fn backup_dir_spec(s: Seq<char>) -> Seq<char> {
    parent_spec(s) + "bak"@
}

/// Where a backup of the file at `s` lands: `bak/<file name>` beside it.
pub open spec fn backup_dest_spec(s: Seq<char>) -> Option<Seq<char>> {
    match file_name_spec(s) {
        Some(n) => Some(backup_dir_spec(s) + "/"@ + n),
        None => None,
    }
}

proof fn lemma_split_point(s: Seq<char>, p: int)
    requires
        0 <= p <= s.len(),
        forall|k: int| p <= k < s.len() ==> !is_sep(s[k]),
        p == 0 || is_sep(s[p - 1]),
    ensures
        split_point(s) == p,
    decreases s.len(),
{
    if s.len() == 0 {
    } else if is_sep(s.last()) {
        assert(p == s.len());
    } else {
        assert(p < s.len());
        let d = s.drop_last();
        assert(forall|k: int| p <= k < d.len() ==> !is_sep(#[trigger] d[k]));
        lemma_split_point(d, p);
    }
}

fn is_sep_char(c: char) -> (r: bool)
    ensures
        r == is_sep(c),
{
    c == '/' || c == '\\'
}

/// Finds the index just after the last separator of `path`.
fn split_index(path: &str) -> (r: usize)
    ensures
        r == split_point(path@),
        r <= path@.len(),
{
    let len = path.unicode_len();
    let mut i: usize = len;
    while i > 0 && !is_sep_char(path.get_char(i - 1))
        invariant
            i <= len,
            len == path@.len(),
            forall|k: int| i <= k < len ==> !is_sep(path@[k]),
        decreases i,
    {
        i -= 1;
    }
    proof {
        lemma_split_point(path@, i as int);
    }
    i
}

/// The final component of `path`, when there is one.
pub fn file_name_of(path: &str) -> (r: Option<String>)
    ensures
        match r {
            Some(n) => file_name_spec(path@) == Some(n@),
            None => file_name_spec(path@) is None,
        },
{
    let len = path.unicode_len();
    let sp = split_index(path);
    if sp < len {
        Some(path.substring_char(sp, len).to_owned())
    } else {
        None
    }
}

/// The `bak` directory beside the file at `path`.
pub fn backup_dir_of(path: &str) -> (r: String)
    ensures
        r@ == backup_dir_spec(path@),
{
    let sp = split_index(path);
    let mut s = path.substring_char(0, sp).to_owned();
    s.append("bak");
    s
}

/// The full backup destination for the file at `path`, when the path has a
/// final component.
pub fn backup_dest_of(path: &str) -> (r: Option<String>)
    ensures
        match r {
            Some(d) => backup_dest_spec(path@) == Some(d@),
            None => backup_dest_spec(path@) is None,
        },
{
    let len = path.unicode_len();
    let sp = split_index(path);
    if sp < len {
        let mut s = backup_dir_of(path);
        s.append("/");
        let name = path.substring_char(sp, len);
        s.append(name);
        Some(s)
    } else {
        None
    }
}

} // verus!
