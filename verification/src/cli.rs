//! The arguments of the command line tool and what it decides from them.
use vstd::prelude::*;

use crate::errors::GrepError;
use crate::matcher::pattern_matches;
use crate::parser::{PatternParser, parse_pattern};

verus! {

/// The arguments: the pattern given with `-E`.
pub struct GrepArgs {
    pub option: String,
}

/// What matching the pattern `pattern` against the line `line` gives: the
/// verdict, or the error of a pattern that cannot be parsed.
pub open spec fn grep_outcome(pattern: Seq<char>, line: Seq<char>) -> Result<bool, GrepError> {
    match parse_pattern(pattern) {
        None => Err(GrepError::InvalidOptionProvided),
        Some(pats) => Ok(pattern_matches(pats, line)),
    }
}

impl GrepArgs {
    /// Matches the pattern of `-E` against one line of input.
    pub fn match_pattern(&self, input_line: &str) -> (r: Result<bool, GrepError>)
        ensures
            r == grep_outcome(self.option@, input_line@),
            parse_pattern(self.option@) is None ==> r == Err::<bool, GrepError>(
                GrepError::InvalidOptionProvided,
            ),
            parse_pattern(self.option@) matches Some(v) ==> r == Ok::<bool, GrepError>(
                pattern_matches(v, input_line@),
            ),
    {
        match PatternParser::try_new(self.option.as_str()) {
            None => Err(GrepError::InvalidOptionProvided),
            Some(parser) => Ok(parser.match_input_with_pattern(input_line)),
        }
    }
}

} // verus!
