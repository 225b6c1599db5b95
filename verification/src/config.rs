//! What a run of the search is set up with, and the run itself.

use crate::lines::lines_of;
use crate::search::{ascending, matching_lines, matching_positions, search};
use vstd::prelude::*;
use vstd::string::*;

verus! {

/// The settings of one search.
pub struct Config {
    /// The text to look for.
    pub query: String,
    /// The path of the file to search.
    pub file_path: String,
    /// Whether letter case is ignored.
    pub ignore_case: bool,
}

impl Config {
    /// Builds the settings from the program's arguments and the case switch.
    ///
    /// The first argument is the program's name, the second the query, the
    /// third the path; further arguments are ignored. With fewer than three
    /// arguments there is nothing to build, and the error says so.
    pub fn build(args: Vec<String>, ignore_case: bool) -> (built: Result<Config, &'static str>)
        ensures
            built is Err <==> args@.len() < 3,
            built matches Err(message) ==> message@ == "You must pass 2 parameters"@,
            built matches Ok(config) ==> {
                &&& config.query@ == args@[1]@
                &&& config.file_path@ == args@[2]@
                &&& config.ignore_case == ignore_case
            },
    {
        if args.len() < 3 {
            return Err("You must pass 2 parameters");
        }
        Ok(Config { query: args[1].clone(), file_path: args[2].clone(), ignore_case })
    }
}

/// Runs the search that `config` describes on `contents`, the text of the
/// file at `config.file_path`, and returns the lines to print, in order.
pub fn run<'a>(config: &Config, contents: &'a str) -> (found: Vec<&'a str>)
    ensures
        found.deep_view() == matching_lines(config.query@, contents@, config.ignore_case),
        ascending(matching_positions(config.query@, contents@, config.ignore_case)),
        found@.len() == matching_positions(config.query@, contents@, config.ignore_case).len(),
        forall|k: int|
            0 <= k < found@.len() ==> {
                let at = #[trigger] matching_positions(
                    config.query@,
                    contents@,
                    config.ignore_case,
                )[k];
                &&& 0 <= at < lines_of(contents@).len()
                &&& found@[k]@ == lines_of(contents@)[at]
            },
        config.query@.len() == 0 ==> found.deep_view() == lines_of(contents@),
{
    search(config.query.as_str(), contents, config.ignore_case)
}

} // verus!
