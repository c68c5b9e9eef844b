use rusteams::error::AppError;
use rusteams::infra::auth::device_code::{
    authority_url, classify_error_code, default_scopes, initial_poll_interval,
    issued_refresh_token, next_poll_interval, poll_attempts, poll_timeout, require_session,
    PollOutcome, TokenResponse,
};
use rusteams::infra::auth::token_store::{
    load_outcome, write_outcome, Credential, MemoryStore, SecretStore,
};

#[test]
fn scopes_include_offline_access_for_refresh() {
    assert!(default_scopes().contains("offline_access"));
    assert!(default_scopes().contains("Chat.ReadWrite"));
}

#[test]
fn scopes_are_the_nine_delegated_ones_in_order() {
    assert_eq!(
        default_scopes(),
        "openid profile offline_access User.Read Chat.Read ChatMessage.Send Chat.ReadWrite Presence.Read Presence.Read.All"
    );
}

#[test]
fn memory_store_roundtrip_and_clear() {
    let mut s = MemoryStore::default();
    assert_eq!(s.load_refresh_token("a").unwrap(), None);
    s.save_refresh_token("a", "rt-123").unwrap();
    assert_eq!(s.load_refresh_token("a").unwrap().as_deref(), Some("rt-123"));
    s.clear_refresh_token("a").unwrap();
    assert_eq!(s.load_refresh_token("a").unwrap(), None);
}

#[test]
fn memory_store_keeps_accounts_apart_and_overwrites() {
    let mut s = MemoryStore::new();
    s.save_refresh_token("a", "one").unwrap();
    s.save_refresh_token("b", "two").unwrap();
    s.save_refresh_token("a", "three").unwrap();
    assert_eq!(s.load_refresh_token("a").unwrap().as_deref(), Some("three"));
    assert_eq!(s.load_refresh_token("b").unwrap().as_deref(), Some("two"));
    s.clear_refresh_token("a").unwrap();
    assert_eq!(s.load_refresh_token("a").unwrap(), None);
    assert_eq!(s.load_refresh_token("b").unwrap().as_deref(), Some("two"));
    s.clear_refresh_token("missing").unwrap();
}

#[test]
fn pending_and_slow_down_keep_polling() {
    assert_eq!(classify_error_code(Some("authorization_pending")).unwrap(), PollOutcome::Pending);
    assert_eq!(classify_error_code(Some("slow_down")).unwrap(), PollOutcome::SlowDown);
}

#[test]
fn terminal_poll_errors_end_the_flow_without_detail() {
    for code in ["expired_token", "authorization_declined", "bad_verification_code"] {
        match classify_error_code(Some(code)) {
            Err(AppError::Auth(m)) => assert_eq!(m, "device flow ended"),
            other => panic!("unexpected {other:?}"),
        }
    }
    let err = classify_error_code(Some("expired_token")).unwrap_err();
    assert_eq!(err.user_message(), "authentication failed");
}

#[test]
fn unknown_or_unreadable_poll_errors_are_endpoint_errors() {
    for code in [Some("invalid_grant"), Some(""), None] {
        match classify_error_code(code) {
            Err(AppError::Auth(m)) => assert_eq!(m, "token endpoint error"),
            other => panic!("unexpected {other:?}"),
        }
    }
}

#[test]
fn poll_schedule_honours_the_server() {
    assert_eq!(initial_poll_interval(0), 1);
    assert_eq!(initial_poll_interval(5), 5);
    assert_eq!(poll_attempts(0), 1);
    assert_eq!(poll_attempts(60), 60);
    assert_eq!(next_poll_interval(5, PollOutcome::Pending), 5);
    assert_eq!(next_poll_interval(5, PollOutcome::SlowDown), 10);
    match poll_timeout() {
        AppError::Auth(m) => assert_eq!(m, "device flow timed out"),
        other => panic!("unexpected {other:?}"),
    }
}

#[test]
fn authority_appends_tenant_only_for_entra() {
    assert_eq!(
        authority_url("https://login.microsoftonline.com/", "organizations"),
        "https://login.microsoftonline.com/organizations"
    );
    assert_eq!(authority_url("http://127.0.0.1:9000//", "tenant"), "http://127.0.0.1:9000");
}

#[test]
fn missing_session_guides_back_to_login() {
    assert_eq!(require_session(Some("rt".into())).unwrap(), "rt");
    match require_session(None) {
        Err(AppError::Config(m)) => assert!(m.contains("log in")),
        other => panic!("unexpected {other:?}"),
    }
}

#[test]
fn keyring_outcomes_map_to_results() {
    assert_eq!(load_outcome(Credential::Found("pw".into())).unwrap(), Some("pw".to_string()));
    assert_eq!(load_outcome(Credential::Missing).unwrap(), None);
    match load_outcome(Credential::Unavailable) {
        Err(AppError::Security(m)) => assert_eq!(m, "credential store unavailable"),
        other => panic!("unexpected {other:?}"),
    }
    assert!(write_outcome(Credential::Missing).is_ok());
    assert!(write_outcome(Credential::Found(String::new())).is_ok());
    assert!(write_outcome(Credential::Unavailable).is_err());
}

/// The `error` code of a token-endpoint error body, as the program reads it.
fn error_code(body: &str) -> Option<String> {
    let v: serde_json::Value = serde_json::from_str(body).ok()?;
    v.get("error")?.as_str().map(|s| s.to_string())
}

#[test]
fn classifies_pending_and_slow_down() {
    assert_eq!(
        classify_error_code(error_code(r#"{"error":"authorization_pending"}"#).as_deref()).unwrap(),
        PollOutcome::Pending
    );
    assert_eq!(
        classify_error_code(error_code(r#"{"error":"slow_down"}"#).as_deref()).unwrap(),
        PollOutcome::SlowDown
    );
}

#[test]
fn terminal_errors_are_auth_failures_without_detail() {
    let err = classify_error_code(error_code(r#"{"error":"expired_token"}"#).as_deref()).unwrap_err();
    assert_eq!(err.user_message(), "authentication failed");
}

#[test]
fn sign_in_keeps_only_issued_refresh_tokens() {
    let token = TokenResponse {
        token_type: "Bearer".into(),
        scope: "openid".into(),
        expires_in: 3600,
        access_token: "at-123".into(),
        refresh_token: Some("rt-123".into()),
    };
    assert_eq!(issued_refresh_token(token.clone()).unwrap(), "rt-123");
    let without = TokenResponse { refresh_token: None, ..token };
    match issued_refresh_token(without) {
        Err(AppError::Auth(m)) => assert_eq!(m, "no refresh token issued"),
        other => panic!("unexpected {other:?}"),
    }
}

#[test]
fn drill_refresh_without_stored_token_fails_closed() {
    let store = MemoryStore::default();
    let stored = store.load_refresh_token("default").unwrap();
    let err = require_session(stored).expect_err("drill: no session");
    assert!(err.user_message().contains("log in"), "guides back to login, got: {}", err.user_message());
}
