//! Opaque JSON metadata attached to vectors. The index stores it verbatim
//! and never looks inside.
use vstd::prelude::*;
use serde_json::Value;

verus! {

/// serde_json's JSON value, carried through the index unread.
#[verifier::external_type_specification]
#[verifier::external_body]
pub struct ExValue(serde_json::Value);

/// Relies on the `Clone` that serde_json derives for `Value`: the copy is the
/// same JSON value.
pub assume_specification[ <serde_json::Value as Clone>::clone ](v: &serde_json::Value) -> (r: serde_json::Value)
    ensures
        r == *v,
;

/// A copy of optional metadata.
pub fn copy_metadata(m: &Option<Value>) -> (r: Option<Value>)
    ensures
        r == *m,
{
    match m {
        Some(v) => Some(v.clone()),
        None => None,
    }
}

} // verus!
