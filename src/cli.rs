//! The commands the tool understands, and the `key=value` form of a task
//! argument.
use vstd::prelude::*;
use crate::text::{find, find_char_from};

verus! {

/// What the tool is asked to do.
#[allow(inconsistent_fields)]
pub enum Commands {
    /// Create the tool's directory and settings file.
    Init,
    /// Set a setting.
    SetValue { key: String, value: String },
    /// Show every setting, or the value of one key.
    Show { all: bool, key: Option<String> },
    /// Run a task with named arguments.
    Run { name: Option<String>, args: Vec<(String, String)> },
    /// Commit, and sync a local branch with a feature branch.
    Sync {
        feature: Option<String>,
        local: Option<String>,
        message: Option<String>,
        pull: bool,
        push: bool,
    },
}

/// A command line of the tool.
pub struct Cli {
    pub command: Commands,
}

/// Splits a task argument at its first `=` into key and value; an argument
/// without `=` is refused with a message.
pub fn parse_key_val(s: &str) -> (r: Result<(String, String), String>)
    ensures
        r is Ok <==> find(s@, '=') < s@.len(),
        match r {
            Ok((k, v)) => k@ == s@.subrange(0, find(s@, '=') as int) && v@ == s@.subrange(
                find(s@, '=') as int + 1,
                s@.len() as int,
            ),
            Err(m) => m@ == "Invalid key-value pair: "@ + s@,
        },
{
    let n = s.unicode_len();
    let f = find_char_from(s, '=', 0);
    assert(s@.subrange(0, n as int) =~= s@);
    if f < n {
        let key = String::from_str(s.substring_char(0, f));
        let value = String::from_str(s.substring_char(f + 1, n));
        Ok((key, value))
    } else {
        let mut m = String::from_str("Invalid key-value pair: ");
        m.append(s);
        Err(m)
    }
}

} // verus!
