//! The list operation's output: one line per file.

use vstd::prelude::*;
use vstd::string::StringExecFns;
use crate::paths::file_name_spec;
use crate::paths::file_name_of;

verus! {

/// The listing line for a file name: `- <name>`.
pub open spec fn list_line_spec(name: Seq<char>) -> Seq<char> {
    "- "@ + name
}

/// Builds the listing line for a file name.
pub fn list_line(name: &str) -> (r: String)
    ensures
        r@ == list_line_spec(name@),
{
    let mut s = "- ".to_owned();
    s.append(name);
    s
}

/// The listing line for the file at `path`, or `None` when the path has no
/// final component — the caller treats that as a contract violation.
pub fn list_line_for_path(path: &str) -> (r: Option<String>)
    ensures
        match r {
            Some(line) => file_name_spec(path@) is Some && line@ == list_line_spec(
                file_name_spec(path@)->Some_0,
            ),
            None => file_name_spec(path@) is None,
        },
{
    match file_name_of(path) {
        Some(name) => Some(list_line(name.as_str())),
        None => None,
    }
}

} // verus!
