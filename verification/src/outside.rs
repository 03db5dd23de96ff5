//! Types of outside crates that the library's values carry.

use vstd::prelude::*;

verus! {

/// A failed request or body read of `reqwest`, carried as it is.
#[verifier::external_type_specification]
#[verifier::external_body]
pub struct ReqwestError(reqwest::Error);

} // verus!
