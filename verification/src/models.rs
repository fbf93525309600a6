//! Request and response shapes for the service boundary around the
//! library.

use vstd::prelude::*;

verus! {

/// A request to anonymize a text.
#[derive(Debug, Clone)]
pub struct AnonymizeRequest {
    pub text: String,
}

/// The reconstructed text returned by deanonymization.
#[derive(Debug, Clone)]
pub struct DeAnonymizeResponse {
    pub text: String,
}

} // verus!
