use vstd::prelude::*;

verus! {

/// The length of a generated id: a UUID in hyphenated form.
pub const GENERATED_ID_LEN: usize = 36;

/// Relies on uuid::Uuid::new_v4 and its Display impl: a random version-4
/// identifier written in hyphenated form, 36 characters. Two calls may return
/// anything, so nothing is said of freshness. `new_v4` panics only where the
/// system's random source fails.
#[verifier::external_body]
pub(crate) fn random_id() -> (r: String)
    ensures
        r@.len() == GENERATED_ID_LEN as nat,
{
    uuid::Uuid::new_v4().to_string()
}

} // verus!
