//! Error values of the outside crates that the library carries, and the few calls
//! that build or convert them.
use vstd::prelude::*;

verus! {

/// `anyhow::Error`: the error type that storage backends and the library's fallible
/// operations return.
#[verifier::external_type_specification]
#[verifier::external_body]
pub struct ExAnyhowError(anyhow::Error);

/// `serde_json::Error`: what a failed JSON encoding or decoding reports.
#[verifier::external_type_specification]
#[verifier::external_body]
pub struct ExJsonError(serde_json::Error);

/// Builds an error carrying `message`, through `anyhow::Error::msg`.
/// Nothing is claimed of the error value beyond its existence.
#[verifier::external_body]
pub(crate) fn error_with_message(message: &str) -> anyhow::Error {
    anyhow::Error::msg(message.to_string())
}

/// Converts a JSON error into an `anyhow::Error`, through anyhow's `From` impl.
/// Nothing is claimed of the error value beyond its existence.
#[verifier::external_body]
pub(crate) fn error_from_json(e: serde_json::Error) -> anyhow::Error {
    anyhow::Error::from(e)
}

} // verus!
