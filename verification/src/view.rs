//! The view operation's pure parts: the numbered listing, the validation of
//! the user's selection, and the lines around a file's contents.

use vstd::prelude::*;
use vstd::string::StringExecFns;
use crate::decimal::dec_rep;
use crate::decimal::dec_val;
use crate::decimal::parse_usize;
use crate::decimal::parses_as_usize;
use crate::decimal::strip_plus;
use crate::decimal::usize_to_decimal;
use crate::text::trim_spec;
use crate::text::trim_ws;

verus! {

/// What a line of user input selects from a listing of `count` files.
#[derive(Clone, Copy, Debug, PartialEq, Eq)]
pub enum Selection {
    /// A number between 1 and the file count: the 0-based index of the file.
    Chosen { index: usize },
    /// Input that is not a numeral.
    InvalidInput,
    /// A numeral that is zero or exceeds the file count.
    OutOfRange,
}

/// The value selected by `input`, when its trimmed text is a numeral.
pub open spec fn selected_value(input: Seq<char>) -> nat {
    dec_val(strip_plus(trim_spec(input)))
}

/// Whether the trimmed text of `input` is a numeral that fits in `usize`.
pub open spec fn selects_a_number(input: Seq<char>) -> bool {
    parses_as_usize(trim_spec(input))
}

/// Validates one line of user input against a listing of `count` files:
/// trims it, parses it as a number, and checks the 1-based bounds.
pub fn select_file(input: &str, count: usize) -> (r: Selection)
    ensures
        !selects_a_number(input@) ==> r == Selection::InvalidInput,
        selects_a_number(input@) && (selected_value(input@) == 0 || selected_value(input@)
            > count) ==> r == Selection::OutOfRange,
        selects_a_number(input@) && 0 < selected_value(input@) <= count ==> r
            == (Selection::Chosen { index: (selected_value(input@) - 1) as usize }),
{
    let trimmed = trim_ws(input);
    match parse_usize(trimmed) {
        None => Selection::InvalidInput,
        Some(choice) => {
            if choice == 0 || choice > count {
                Selection::OutOfRange
            } else {
                Selection::Chosen { index: choice - 1 }
            }
        },
    }
}

/// The numbered listing line for the file called `name` at 1-based
/// position `n`: `<n>. <name>`.
pub open spec fn numbered_line_spec(n: nat, name: Seq<char>) -> Seq<char> {
    dec_rep(n) + ". "@ + name
}

/// Builds one numbered listing line.
pub fn numbered_line(n: usize, name: &str) -> (r: String)
    ensures
        r@ == numbered_line_spec(n as nat, name@),
{
    let mut s = usize_to_decimal(n);
    s.append(". ");
    s.append(name);
    s
}

/// Builds the whole numbered listing, with 1-based positions.
pub fn numbered_lines(names: &Vec<String>) -> (r: Vec<String>)
    requires
        names@.len() < usize::MAX,
    ensures
        r@.len() == names@.len(),
        forall|i: int|
            0 <= i < names@.len() ==> (#[trigger] r@[i])@ == numbered_line_spec(
                (i + 1) as nat,
                names@[i]@,
            ),
{
    let mut r: Vec<String> = Vec::new();
    let mut i: usize = 0;
    while i < names.len()
        invariant
            i <= names@.len(),
            names@.len() < usize::MAX,
            r@.len() == i,
            forall|k: int|
                0 <= k < i ==> (#[trigger] r@[k])@ == numbered_line_spec(
                    (k + 1) as nat,
                    names@[k]@,
                ),
        decreases names@.len() - i,
    {
        let line = numbered_line(i + 1, names[i].as_str());
        r.push(line);
        i += 1;
    }
    r
}

/// The separator printed above a file's contents: fifty `=` characters.
pub fn separator_line() -> (r: String)
    ensures
        r@.len() == 50,
        forall|i: int| 0 <= i < 50 ==> r@[i] == '=',
{
    let mut s = String::new();
    let mut i: usize = 0;
    while i < 50
        invariant
            i <= 50,
            s@.len() == i,
            forall|k: int| 0 <= k < i ==> s@[k] == '=',
        decreases 50 - i,
    {
        proof {
            reveal_strlit("=");
        }
        s.append("=");
        i += 1;
    }
    s
}

/// The header printed above a file's contents, naming the file.
pub fn contents_header(name: &str) -> (r: String)
    ensures
        r@ == "\nContents of "@ + name@ + ":"@,
{
    let mut s = "\nContents of ".to_owned();
    s.append(name);
    s.append(":");
    s
}

/// The notice for a selection that is out of range, naming the valid range.
pub fn invalid_selection_message(count: usize) -> (r: String)
    ensures
        r@ == "Invalid selection. Please choose a number between 1 and "@ + dec_rep(count as nat)
            + "."@,
{
    let mut s = "Invalid selection. Please choose a number between 1 and ".to_owned();
    let num = usize_to_decimal(count);
    s.append(num.as_str());
    s.append(".");
    s
}

/// The notice for a directory with no log files, naming the directory.
pub fn no_files_message(dir: &str) -> (r: String)
    ensures
        r@ == "No log files found in directory: "@ + dir@,
{
    let mut s = "No log files found in directory: ".to_owned();
    s.append(dir);
    s
}

} // verus!
