//! Error kinds surfaced by the retrieval pipeline, and the single descriptive
//! string each one renders to.

use vstd::prelude::*;
use vstd::string::StringExecFns;

verus! {

/// Everything that can go wrong in the pipeline. Remote-call failures carry
/// the upstream message; file-system and serialization failures carry a
/// description and are downgraded by the cache tiers before they ever reach a
/// caller.
#[derive(Debug, Clone, PartialEq, Eq)]
pub enum AppError {
    NotAuthenticated,
    CredentialRead(String),
    GoogleApi(String),
    DriveApi(String),
    InvalidInput(String),
    OAuth2(String),
    Io(String),
    Json(String),
}

impl AppError {
    /// The one user-visible line for this error.
    pub open spec fn message_spec(&self) -> Seq<char> {
        match self {
            AppError::NotAuthenticated => "not authenticated — run `auth` first to set up credentials"@,
            AppError::CredentialRead(m) => "failed to read credentials: "@ + m@,
            AppError::GoogleApi(m) => "Google API error: "@ + m@,
            AppError::DriveApi(m) => "Drive API error: "@ + m@,
            AppError::InvalidInput(m) => "Invalid input: "@ + m@,
            AppError::OAuth2(m) => "OAuth2 error: "@ + m@,
            AppError::Io(m) => "I/O error: "@ + m@,
            AppError::Json(m) => "JSON error: "@ + m@,
        }
    }

    /// Render the error as its single descriptive string.
    pub fn message(&self) -> (r: String)
        ensures
            r@ == self.message_spec(),
    {
        match self {
            AppError::NotAuthenticated => String::from_str(
                "not authenticated — run `auth` first to set up credentials",
            ),
            AppError::CredentialRead(m) => String::from_str("failed to read credentials: ").concat(
                m.as_str(),
            ),
            AppError::GoogleApi(m) => String::from_str("Google API error: ").concat(m.as_str()),
            AppError::DriveApi(m) => String::from_str("Drive API error: ").concat(m.as_str()),
            AppError::InvalidInput(m) => String::from_str("Invalid input: ").concat(m.as_str()),
            AppError::OAuth2(m) => String::from_str("OAuth2 error: ").concat(m.as_str()),
            AppError::Io(m) => String::from_str("I/O error: ").concat(m.as_str()),
            AppError::Json(m) => String::from_str("JSON error: ").concat(m.as_str()),
        }
    }
}

} // verus!
