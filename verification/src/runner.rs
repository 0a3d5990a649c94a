//! The printable pieces of one search run.

use vstd::prelude::*;
use vstd::string::*;

verus! {

/// The status line announcing one search run: it names the query and the
/// file being searched, and precedes the matched lines on output.
pub fn status_line(query: &str, filename: &str) -> (line: String)
    ensures
        line@ == "Searching for '"@ + query@ + "' in '"@ + filename@ + "'"@,
{
    let mut line = String::from_str("Searching for '");
    line.append(query);
    line.append("' in '");
    line.append(filename);
    line.append("'");
    proof {
        assert(line@ =~= "Searching for '"@ + query@ + "' in '"@ + filename@ + "'"@);
    }
    line
}

} // verus!
