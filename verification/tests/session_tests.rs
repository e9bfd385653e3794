use ilias_sync::session::after_auth;
use ilias_sync::session::after_first_pass;
use ilias_sync::session::after_second_pass;
use ilias_sync::session::AfterAuth;
use ilias_sync::session::AfterFirst;
use ilias_sync::Session;
use ilias_sync::SyncError;
use ilias_sync::SyncStatus;

/// Drive the full protocol the way a host would, counting authentication
/// calls; `auth` and `second` are what those steps would return.
fn run_trigger(
    first: Result<(), SyncError>,
    has_cached: bool,
    auth: Result<(), SyncError>,
    second: Result<(), SyncError>,
) -> (SyncStatus, u32) {
    let mut auth_calls = 0;
    let status = match after_first_pass(&first, has_cached) {
        AfterFirst::Settled(s) => s,
        AfterFirst::Reauthenticate => {
            auth_calls += 1;
            match after_auth(&auth) {
                AfterAuth::Settled(s) => s,
                AfterAuth::RunSecondPass => after_second_pass(&second),
            }
        },
    };
    (status, auth_calls)
}

#[test]
fn expired_session_with_valid_cached_credentials_retries_once_and_succeeds() {
    let (status, auth_calls) =
        run_trigger(Err(SyncError::Unauthenticated), true, Ok(()), Ok(()));
    assert_eq!(status, SyncStatus::Synced);
    assert_eq!(auth_calls, 1);
}

#[test]
fn invalid_cached_credentials_fail_without_looping() {
    let (status, auth_calls) = run_trigger(
        Err(SyncError::Unauthenticated),
        true,
        Err(SyncError::BadCredentials),
        Ok(()),
    );
    assert_eq!(status, SyncStatus::Failed(SyncError::BadCredentials));
    assert_eq!(auth_calls, 1);
}

#[test]
fn expired_session_without_cached_credentials_asks_for_them() {
    let (status, auth_calls) =
        run_trigger(Err(SyncError::Unauthenticated), false, Ok(()), Ok(()));
    assert_eq!(status, SyncStatus::NeedsCredentials);
    assert_eq!(auth_calls, 0);
}

#[test]
fn clean_first_pass_needs_no_authentication() {
    let (status, auth_calls) = run_trigger(Ok(()), true, Ok(()), Ok(()));
    assert_eq!(status, SyncStatus::Synced);
    assert_eq!(auth_calls, 0);
}

#[test]
fn transport_failure_is_reported_not_retried() {
    let (status, auth_calls) = run_trigger(Err(SyncError::TransportError), true, Ok(()), Ok(()));
    assert_eq!(status, SyncStatus::Failed(SyncError::TransportError));
    assert_eq!(auth_calls, 0);
}

#[test]
fn second_expiry_is_final() {
    let (status, auth_calls) = run_trigger(
        Err(SyncError::Unauthenticated),
        true,
        Ok(()),
        Err(SyncError::Unauthenticated),
    );
    assert_eq!(status, SyncStatus::Failed(SyncError::Unauthenticated));
    assert_eq!(auth_calls, 1);
}

#[test]
fn percent_encoding_escapes_reserved_bytes() {
    assert_eq!(
        ilias_sync::session::percent_encode("a b&c=d").unwrap(),
        "a%20b%26c%3Dd"
    );
    assert_eq!(
        ilias_sync::session::percent_encode("AZaz09-_.~").unwrap(),
        "AZaz09-_.~"
    );
    assert_eq!(ilias_sync::session::percent_encode("Kürs"), None);
}

#[test]
fn login_form_body_is_assembled_as_the_portal_expects() {
    let body = ilias_sync::session::login_form_body("ctx/1", "alice", "secret").unwrap();
    assert_eq!(
        body,
        "LoginForm%5Bcontext%5D=ctx%2F1&LoginForm%5Busername%5D=alice\
         &LoginForm%5Bpassword%5D=secret&yt0=Login"
    );
    let saml = ilias_sync::session::saml_form_body("r s", "a+b").unwrap();
    assert_eq!(saml, "RelayState=r%20s&SAMLResponse=a%2Bb");
}

#[test]
fn session_token_lifecycle() {
    let mut session = Session::new();
    assert!(!session.is_authenticated());
    assert_eq!(session.cookie(), None);
    session.set_token("abc123".to_string());
    assert!(session.is_authenticated());
    assert_eq!(session.cookie(), Some("PHPSESSID=abc123".to_string()));
}
