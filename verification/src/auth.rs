//! Locations of the credential and token files under the per-application
//! configuration directory. The interactive consent flow itself is an
//! external collaborator; this module only decides the paths.

use vstd::prelude::*;
use vstd::string::StringExecFns;
use crate::error::AppError;

verus! {

/// Relies on `dirs::config_dir`: the platform's configuration directory for
/// the current user, when the platform defines one. The result depends on the
/// environment, so nothing is promised of it.
#[verifier::external_body]
pub(crate) fn platform_config_dir() -> (r: Option<String>) {
    match dirs::config_dir() {
        Some(p) => p.to_str().map(|s| s.to_string()),
        None => None,
    }
}

/// This application's configuration directory: `personal-google-mcp` under
/// the platform's configuration location; an error when the platform gives
/// none.
pub fn config_dir() -> (r: Result<String, AppError>)
    ensures
        match r {
            Ok(p) => exists|base: Seq<char>| p@ == base + "/personal-google-mcp"@,
            Err(e) => e matches AppError::CredentialRead(m) && m@
                == "cannot determine config directory"@,
        },
{
    match platform_config_dir() {
        Some(base) => {
            let ghost b = base@;
            let joined = base.concat("/personal-google-mcp");
            assert(joined@ == b + "/personal-google-mcp"@);
            Ok(joined)
        },
        None => Err(AppError::CredentialRead(String::from_str(
            "cannot determine config directory",
        ))),
    }
}

/// Where `credentials.json` lives: directly under the configuration
/// directory.
pub fn credentials_path() -> (r: Result<String, AppError>)
    ensures
        match r {
            Ok(p) => exists|base: Seq<char>| p@ == base + "/personal-google-mcp"@
                + "/credentials.json"@,
            Err(e) => e matches AppError::CredentialRead(m) && m@
                == "cannot determine config directory"@,
        },
{
    match config_dir() {
        Ok(dir) => {
            let ghost d = dir@;
            let joined = dir.concat("/credentials.json");
            assert(joined@ == d + "/credentials.json"@);
            Ok(joined)
        },
        Err(e) => Err(e),
    }
}

/// Where saved OAuth tokens live: directly under the configuration
/// directory.
pub fn tokens_path() -> (r: Result<String, AppError>)
    ensures
        match r {
            Ok(p) => exists|base: Seq<char>| p@ == base + "/personal-google-mcp"@
                + "/tokens.json"@,
            Err(e) => e matches AppError::CredentialRead(m) && m@
                == "cannot determine config directory"@,
        },
{
    match config_dir() {
        Ok(dir) => {
            let ghost d = dir@;
            let joined = dir.concat("/tokens.json");
            assert(joined@ == d + "/tokens.json"@);
            Ok(joined)
        },
        Err(e) => Err(e),
    }
}

/// Where the disk cache tier keeps its files: the `cache` subdirectory of the
/// configuration directory, with `.` standing in when the platform gives no
/// configuration location.
pub fn cache_dir_path() -> (r: String)
    ensures
        exists|base: Seq<char>| r@ == base + "/personal-google-mcp/cache"@,
{
    let base = match platform_config_dir() {
        Some(b) => b,
        None => String::from_str("."),
    };
    let ghost b = base@;
    let joined = base.concat("/personal-google-mcp/cache");
    assert(joined@ == b + "/personal-google-mcp/cache"@);
    joined
}

} // verus!
