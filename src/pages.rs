//! The fixed texts of the service's pages.

use vstd::prelude::*;

verus! {

/// The greeting shown at the service's root.
pub fn index() -> (r: &'static str)
    ensures
        r@ == "welcome to my url shortener 👋"@,
{
    "welcome to my url shortener 👋"
}

/// The page that a lookup of an unknown key is sent to.
pub fn missing() -> (r: String)
    ensures
        r@ == "this mapping doesn't exist 😲"@,
{
    "this mapping doesn't exist 😲".to_owned()
}

} // verus!
