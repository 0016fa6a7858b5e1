//! Errors of the registry's operations.

use vstd::prelude::*;

verus! {

/// Why a registry operation was refused.
#[derive(Clone, Copy, Debug, PartialEq, Eq, Structural)]
pub enum RegistryError {
    /// No node holds the token.
    NotFound,
    /// Administrative credentials are required and were not presented.
    Unauthorized,
    /// A report lacked its descriptive attributes or its measurements.
    BadRequest,
    /// A freshly minted token is already held by another node.
    TokenTaken,
    /// A stored node would share its token, hostname or address with another.
    Conflict,
}

impl RegistryError {
    /// The HTTP status that carries this error to a client.
    pub fn status_code(&self) -> (r: u16)
        ensures
            r == match *self {
                RegistryError::NotFound => 404u16,
                RegistryError::Unauthorized => 401u16,
                RegistryError::BadRequest => 400u16,
                _ => 500u16,
            },
    {
        match self {
            RegistryError::NotFound => 404,
            RegistryError::Unauthorized => 401,
            RegistryError::BadRequest => 400,
            _ => 500,
        }
    }

    /// A short description for the response body.
    pub fn detail(&self) -> (r: &'static str)
        ensures
            r@ == match *self {
                RegistryError::NotFound => "not found"@,
                RegistryError::Unauthorized => "unauthorized"@,
                RegistryError::BadRequest => "bad request: meta/metrics required"@,
                RegistryError::TokenTaken => "token already in use"@,
                RegistryError::Conflict => "conflicting node identity"@,
            },
    {
        match self {
            RegistryError::NotFound => "not found",
            RegistryError::Unauthorized => "unauthorized",
            RegistryError::BadRequest => "bad request: meta/metrics required",
            RegistryError::TokenTaken => "token already in use",
            RegistryError::Conflict => "conflicting node identity",
        }
    }
}

} // verus!
