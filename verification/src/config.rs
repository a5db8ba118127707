//! Invocation configuration: which operation to run, and on which directory.

use vstd::prelude::*;
use vstd::string::StringExecFns;
use crate::text::str_eq;

verus! {

/// The four operations the tool can run over the log directory.
#[derive(Clone, Copy, Debug, PartialEq, Eq)]
pub enum Operation {
    List,
    Delete,
    Backup,
    View,
}

/// The operation named by a command-line word.  Any word that is not
/// `backup`, `delete` or `view` (including `list` itself) selects `List`.
pub open spec fn operation_of(s: Seq<char>) -> Operation {
    if s == "backup"@ {
        Operation::Backup
    } else if s == "delete"@ {
        Operation::Delete
    } else if s == "view"@ {
        Operation::View
    } else {
        Operation::List
    }
}

/// One invocation's choices: the operation and the target directory.
pub struct Config {
    pub operation: Operation,
    pub fflogs_dir: String,
}

impl Config {
    /// Reads the operation word and the directory from the argument list
    /// (`args[0]` is the program name).  Callers must supply both.
    pub fn new(args: &Vec<String>) -> (c: Config)
        requires
            args@.len() >= 3,
        ensures
            c.operation == operation_of(args@[1]@),
            c.fflogs_dir@ == args@[2]@,
    {
        let operation_arg = &args[1];
        let fflogs_dir = args[2].clone();
        let operation: Operation = if str_eq(operation_arg.as_str(), "backup") {
            Operation::Backup
        } else if str_eq(operation_arg.as_str(), "delete") {
            Operation::Delete
        } else if str_eq(operation_arg.as_str(), "view") {
            Operation::View
        } else {
            Operation::List
        };
        Config { operation, fflogs_dir }
    }
}

/// Resolves the directory argument: the literal word `default` selects the
/// combat-tracker log folder under the platform's application-data root;
/// any other argument is used verbatim.
pub fn resolve_log_dir(dir: &str, app_data: &str) -> (r: String)
    ensures
        dir@ == "default"@ ==> r@ == app_data@ + "\\Advanced Combat Tracker\\FFXIVLogs"@,
        dir@ != "default"@ ==> r@ == dir@,
{
    if str_eq(dir, "default") {
        let mut s = app_data.to_owned();
        s.append("\\Advanced Combat Tracker\\FFXIVLogs");
        s
    } else {
        dir.to_owned()
    }
}

} // verus!
