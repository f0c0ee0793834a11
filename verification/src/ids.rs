//! Fresh identifiers for connections, sessions, streams and history entries.

use vstd::prelude::*;

verus! {

/// Draws a random version-4 UUID with `uuid::Uuid::new_v4` and renders it
/// with its `Display` impl.
///
/// Trusted: the rendering is the hyphenated form, which is always 36
/// characters long. Which identifier comes back is left open.
#[verifier::external_body]
pub(crate) fn fresh_id() -> (id: String)
    ensures
        id@.len() == 36,
{
    uuid::Uuid::new_v4().to_string()
}

} // verus!
