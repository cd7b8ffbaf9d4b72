//! The one place the crate draws fresh identifiers.

use vstd::prelude::*;

verus! {

/// Relies on uuid's `Uuid::new_v4` and its `Display` form: a random
/// version-4 identifier as hyphenated text, which is 36 characters long.
/// Nothing further is assumed: in particular not that it is unused.
#[verifier::external_body]
pub fn generate_id() -> (r: String)
    ensures
        r@.len() == 36,
{
    uuid::Uuid::new_v4().to_string()
}

} // verus!
