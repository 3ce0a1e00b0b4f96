//! A greeting, to check that the library is there.

use vstd::prelude::*;

verus! {

/// Returns a greeting.
pub fn hello() -> (greeting: &'static str)
    ensures
        greeting@ == "hello from fleet-conductor"@,
{
    "hello from fleet-conductor"
}

} // verus!
