//! Values that the user types or passes for the constructor arguments and
//! the private key.

use vstd::prelude::*;
use crate::text::{trim, chars_of, string_of_range, trim_bounds};
use crate::params::opt_view;

verus! {

/// `input`, trimmed, where anything is left.
pub open spec fn accepted(input: Seq<char>) -> Option<Seq<char>> {
    if trim(input).len() == 0 {
        None
    } else {
        Some(trim(input))
    }
}

/// A typed value, trimmed; none where nothing but white space was typed
/// (the prompt then asks again).
pub fn accept_input(input: &str) -> (r: Option<String>)
    ensures
        opt_view(r) == accepted(input@),
{
    let c = chars_of(input);
    let (a, b) = trim_bounds(&c, 0, c.len());
    assert(c@.subrange(0, c@.len() as int) =~= c@);
    if a == b {
        None
    } else {
        Some(string_of_range(&c, a, b))
    }
}

/// The private key from the command line, trimmed: refused where it is
/// blank; `Ok(None)` where none was given and the key is to be asked for.
pub fn get_private_key(provided: Option<&str>) -> (r: Result<Option<String>, String>)
    ensures
        provided is None ==> r matches Ok(None),
        provided matches Some(v) ==> match accepted(v@) {
            Some(k) => r matches Ok(Some(key)) && key@ == k,
            None => r matches Err(e) && e@ == "Private key cannot be empty."@,
        },
{
    match provided {
        Some(value) => match accept_input(value) {
            Some(key) => Ok(Some(key)),
            None => Err(String::from_str("Private key cannot be empty.")),
        },
        None => Ok(None),
    }
}

} // verus!
