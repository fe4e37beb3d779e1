//! Names for what is stored.

use vstd::prelude::*;

verus! {

/// `Uuid::new_v4` of uuid, written out: a name drawn at random. Of the
/// name only its length is known, 36 characters. The call panics where
/// the operating system hands out no random bytes.
#[verifier::external_body]
pub(crate) fn fresh_id() -> (r: String)
    ensures
        r@.len() == 36,
{
    uuid::Uuid::new_v4().to_string()
}

} // verus!
