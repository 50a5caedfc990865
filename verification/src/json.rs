//! The JSON value type of serde_json, as the library hands values to it.
use vstd::prelude::*;
use serde_json::Value as JsonValue;

verus! {

#[verifier::external_type_specification]
#[verifier::external_body]
pub struct ExJsonValue(JsonValue);

} // verus!
