//! The parsed configuration of one search run.

use vstd::prelude::*;

verus! {

/// The inputs that drive one search run: the query to look for and the
/// name of the file to search in.  Built once from the raw argument list
/// and never changed afterwards.
pub struct Config {
    pub query: String,
    pub filename: String,
}

impl Config {
    /// Builds a `Config` from an ordered list of raw arguments.  The
    /// first element is the program's invocation name and is ignored;
    /// the second becomes the query and the third the file name, both
    /// copied into owned storage.  With fewer than three elements the
    /// parse fails, and with exactly the fixed message below.
    pub fn new(args: &[String]) -> (result: Result<Config, &'static str>)
        ensures
            args@.len() >= 3 ==> result is Ok && result->Ok_0.query@ == args@[1]@
                && result->Ok_0.filename@ == args@[2]@,
            args@.len() < 3 ==> result is Err && result->Err_0@ == "not enough arguments"@,
    {
        if args.len() < 3 {
            return Err("not enough arguments");
        }
        let query = args[1].clone();
        let filename = args[2].clone();
        Ok(Config { query, filename })
    }
}

} // verus!
