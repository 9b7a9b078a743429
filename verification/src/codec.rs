//! Identifiers in their two forms: the human-readable address and the
//! canonical key. The conversion is the host's; here its failures become
//! `InvalidIdentifier`, with the host's error as the cause.

use crate::host::{canonical_form, canonicalize, human_form, humanize};
use crate::types::{ErrorKind, QueryError};
use cosmwasm_std::Deps;
use vstd::prelude::*;

verus! {

/// The canonical key of the human-readable address `human`, or the error
/// where the codec behind `deps` rejects the address.
pub open spec fn encoding(deps: Deps, human: Seq<char>) -> Result<Seq<u8>, ErrorKind> {
    match canonical_form(deps, human) {
        Some(key) => Ok(key),
        None => Err(ErrorKind::InvalidIdentifier),
    }
}

/// The human-readable address of the canonical key `key`, or the error where
/// the codec behind `deps` rejects the key.
pub open spec fn decoding(deps: Deps, key: Seq<u8>) -> Result<Seq<char>, ErrorKind> {
    match human_form(deps, key) {
        Some(human) => Ok(human),
        None => Err(ErrorKind::InvalidIdentifier),
    }
}

/// Turns a human-readable address into its canonical key.
pub fn encode(deps: Deps, human: &str) -> (r: Result<Vec<u8>, QueryError>)
    ensures
        match encoding(deps, human@) {
            Ok(key) => r matches Ok(bytes) && bytes@ == key,
            Err(e) => r matches Err(err) && err.kind == e && err.cause is Some,
        },
{
    match canonicalize(deps, human) {
        Ok(key) => Ok(key),
        Err(cause) => Err(QueryError { kind: ErrorKind::InvalidIdentifier, cause: Some(cause) }),
    }
}

/// Turns a canonical key back into the human-readable address.
pub fn decode(deps: Deps, key: Vec<u8>) -> (r: Result<String, QueryError>)
    ensures
        match decoding(deps, key@) {
            Ok(human) => r matches Ok(text) && text@ == human,
            Err(e) => r matches Err(err) && err.kind == e && err.cause is Some,
        },
{
    match humanize(deps, key) {
        Ok(human) => Ok(human),
        Err(cause) => Err(QueryError { kind: ErrorKind::InvalidIdentifier, cause: Some(cause) }),
    }
}

} // verus!
