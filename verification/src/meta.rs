use vstd::prelude::*;

verus! {

/// serde_json's JSON document type. Chunk metadata is carried through the
/// store as one opaque value of this type: the store never looks inside it,
/// it only moves it, hands references to it out, and copies it.
#[verifier::external_type_specification]
#[verifier::external_body]
pub struct ExValue(serde_json::Value);

/// Relies on serde_json::Value's derived Clone, which deep-copies the value,
/// producing one equal to the original.
pub assume_specification[ <serde_json::Value as Clone>::clone ](
    v: &serde_json::Value,
) -> (r: serde_json::Value)
    ensures
        r == *v,
;

}
