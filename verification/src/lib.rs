//! A small grep: a pattern language of literals, `\d`, `\w`, `[...]`,
//! `[^...]`, `+`, and the anchors `^` and `$`, matched against one line.
use vstd::prelude::*;

pub mod cli;
pub mod errors;
pub mod helpers;
pub mod laws;
pub mod matcher;
pub mod parser;
pub mod text;
pub mod types;

pub use cli::GrepArgs;
pub use errors::GrepError;
pub use parser::PatternParser;
pub use types::{CharacterClasses, MatchResultType, QualifierType};

use cli::grep_outcome;

verus! {

/// Runs the tool on its arguments and one input line: `Ok` when the pattern
/// matches the line, an error message otherwise.
pub fn run(args: &GrepArgs, input_line: &str) -> (r: Result<(), String>)
    ensures
        grep_outcome(args.option@, input_line@) == Ok::<bool, GrepError>(true) ==> r is Ok,
        grep_outcome(args.option@, input_line@) != Ok::<bool, GrepError>(true) ==> (r matches Err(
            e,
        ) && e@ == "An unexpected error occured"@),
{
    match args.match_pattern(input_line) {
        Ok(true) => Ok(()),
        _ => Err(String::from_str("An unexpected error occured")),
    }
}

} // verus!
