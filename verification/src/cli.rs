//! The command-line configuration record. Parsing the command line is
//! plain I/O glue and lives outside this library; this type is the
//! parsed result, and the search options are derived from it here.

use vstd::prelude::*;

use crate::filter::SearchOptions;

verus! {

/// A parsed command line: the directory to start the search in, the
/// name or pattern to search for, `"f"` or `"d"` to restrict the kind
/// of the reported entries, and the number of worker threads to use
/// for parallel expansion. The thread count only configures the
/// caller's worker pool; the traversal engine itself never reads it.
pub struct Cli {
    pub path: String,
    pub name: String,
    pub f_type: String,
    pub threads: usize,
}

impl Cli {
    /// The search options this command line asks for: its name is the
    /// pattern, its type is the kind restriction.
    pub fn search_options(&self) -> (options: SearchOptions)
        ensures
            options.name_pattern matches Some(p) && p@ == self.name@,
            options.file_type matches Some(t) && t@ == self.f_type@,
    {
        SearchOptions { name_pattern: Some(self.name.clone()), file_type: Some(
            self.f_type.clone(),
        ) }
    }
}

} // verus!
