//! Fresh identifiers for events and sessions.

use vstd::prelude::*;

verus! {

/// `uuid::Uuid::now_v7`, rendered by the UUID's `Display` impl. The value
/// mixes the clock with random bits, so nothing is claimed of the text; in
/// particular not that two calls differ.
#[verifier::external_body]
pub(crate) fn new_id() -> String {
    uuid::Uuid::now_v7().to_string()
}

} // verus!
