//! Stateless token-based authentication and authorization core.
//!
//! The library issues and verifies HMAC-signed bearer tokens, hashes and
//! checks credentials, extracts an authenticated identity from a request
//! header, and enforces resource-ownership rules, all over plain values so
//! that every rule is stated and proved.

pub mod base64url;
pub mod bytes;
pub mod claims;
pub mod identity;
pub mod middleware;
pub mod handlers;
pub mod ownership;
pub mod password;
pub mod posts;
pub mod service;
pub mod token;
pub mod users;

use vstd::prelude::*;

verus! {

/// Client-visible error taxonomy of the whole surface.
#[derive(Debug, Clone, Copy, PartialEq, Eq, Structural)]
pub enum ApiError {
    /// Malformed input: a field fails its shape check.
    ValidationFailed,
    /// A unique key (the email) is already taken.
    Conflict,
    /// No authorization header was presented on a protected route.
    AuthorizationRequired,
    /// The authorization header is not of the form `Bearer <token>`.
    InvalidAuthorizationFormat,
    /// The bearer token failed verification, for any reason.
    InvalidToken,
    /// The token's subject is not a well-formed identity id.
    InvalidSubject,
    /// Unknown email or wrong password; deliberately indistinguishable.
    InvalidCredentials,
    /// Authenticated, but not the owner of the resource.
    Forbidden,
    /// The resource does not exist.
    NotFound,
    /// Unexpected collaborator or crypto failure.
    InternalError,
}

impl ApiError {
    /// The HTTP status code that each error maps to.
    pub open spec fn spec_status_code(self) -> u16 {
        match self {
            ApiError::ValidationFailed => 400,
            ApiError::Conflict => 409,
            ApiError::AuthorizationRequired => 401,
            ApiError::InvalidAuthorizationFormat => 401,
            ApiError::InvalidToken => 401,
            ApiError::InvalidSubject => 401,
            ApiError::InvalidCredentials => 401,
            ApiError::Forbidden => 403,
            ApiError::NotFound => 404,
            ApiError::InternalError => 500,
        }
    }

    /// Maps the error to its HTTP status code.
    pub fn status_code(self) -> (r: u16)
        ensures
            r == self.spec_status_code(),
    {
        match self {
            ApiError::ValidationFailed => 400,
            ApiError::Conflict => 409,
            ApiError::AuthorizationRequired => 401,
            ApiError::InvalidAuthorizationFormat => 401,
            ApiError::InvalidToken => 401,
            ApiError::InvalidSubject => 401,
            ApiError::InvalidCredentials => 401,
            ApiError::Forbidden => 403,
            ApiError::NotFound => 404,
            ApiError::InternalError => 500,
        }
    }
}

} // verus!
