//! Small helpers.
use vstd::prelude::*;

use crate::text::{chars_of, equal_chars};

verus! {

/// Whether the value of the `DEBUG` variable turns debugging on: only the
/// value `true` does (any other value, or none, leaves it off).
pub fn debug_mode_from(value: Option<&str>) -> (r: bool)
    ensures
        r == (value matches Some(v) && v@ == "true"@),
{
    match value {
        None => false,
        Some(v) => {
            let on = "true";
            equal_chars(&chars_of(v), &chars_of(on))
        },
    }
}

} // verus!
