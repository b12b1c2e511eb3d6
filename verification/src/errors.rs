//! The error taxonomy of the service, and its mapping to HTTP status
//! codes. Errors are mapped to a status exactly once, at the HTTP
//! boundary; internal callers match on the kind.

use vstd::prelude::*;

verus! {

/// Every failure a request can end in.
#[derive(Debug, Clone, Copy, PartialEq, Eq, Structural)]
pub enum ApiError {
    /// The login challenge is absent or expired.
    InvalidChallenge,
    /// The login signature does not verify.
    InvalidSignature,
    /// A bearer token is malformed, expired, or wrongly signed.
    InvalidToken,
    /// A private lobby's whitelist does not admit the identity.
    NotInWhitelist,
    /// A non-owner attempted an owner-only operation.
    NotOwner,
    /// The player is already in a lobby.
    AlreadyInLobby,
    /// The lobby id is unknown, or the lobby no longer accepts joins.
    LobbyNotFound,
    /// Minting a token failed.
    InternalIssueFailed,
}

impl ApiError {
    /// The HTTP status each kind surfaces as.
    pub open spec fn spec_status(self) -> u16 {
        match self {
            ApiError::InvalidChallenge => 401,
            ApiError::InvalidSignature => 401,
            ApiError::InvalidToken => 401,
            ApiError::NotInWhitelist => 403,
            ApiError::NotOwner => 403,
            ApiError::AlreadyInLobby => 409,
            ApiError::LobbyNotFound => 404,
            ApiError::InternalIssueFailed => 500,
        }
    }

    /// Maps the kind to its HTTP status code.
    pub fn status_code(&self) -> (c: u16)
        ensures
            c == self.spec_status(),
    {
        match self {
            ApiError::InvalidChallenge => 401,
            ApiError::InvalidSignature => 401,
            ApiError::InvalidToken => 401,
            ApiError::NotInWhitelist => 403,
            ApiError::NotOwner => 403,
            ApiError::AlreadyInLobby => 409,
            ApiError::LobbyNotFound => 404,
            ApiError::InternalIssueFailed => 500,
        }
    }
}

} // verus!
