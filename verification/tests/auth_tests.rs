use classroom_core::auth::{cache_dir_path, config_dir, credentials_path, tokens_path};
use classroom_core::error::AppError;

#[test]
fn credential_files_live_under_the_config_dir() {
    match config_dir() {
        Ok(dir) => {
            assert!(dir.ends_with("/personal-google-mcp"));
            assert_eq!(credentials_path().unwrap(), format!("{}/credentials.json", dir));
            assert_eq!(tokens_path().unwrap(), format!("{}/tokens.json", dir));
        }
        Err(e) => {
            // a platform without a configuration directory reports the same
            // error for every path
            assert!(matches!(e, AppError::CredentialRead(_)));
            assert!(matches!(credentials_path(), Err(AppError::CredentialRead(_))));
            assert!(matches!(tokens_path(), Err(AppError::CredentialRead(_))));
        }
    }
}

#[test]
fn disk_cache_dir_is_the_cache_subdirectory() {
    assert!(cache_dir_path().ends_with("/personal-google-mcp/cache"));
}
