use rusteams::error::AppError;

#[test]
fn display_messages_contain_no_secret_by_construction() {
    let cases = vec![
        AppError::Auth("login failed".into()),
        AppError::Network("timeout".into()),
        AppError::Config("missing client-id".into()),
    ];
    for err in cases {
        let msg = err.user_message();
        assert!(!msg.contains("Bearer"), "leak in {msg:?}");
        assert!(!msg.contains("eyJ"), "leak in {msg:?}");
    }
}

#[test]
fn shutdown_error_is_a_fixed_message() {
    assert_eq!(AppError::Shutdown.user_message(), "shutting down");
}

#[test]
fn auth_error_does_not_echo_secret_input() {
    let err = AppError::Auth("x".into());
    assert_eq!(err.user_message(), "authentication failed");
}

#[test]
fn every_kind_has_its_prefix() {
    assert_eq!(AppError::Config("c".into()).user_message(), "configuration error: c");
    assert_eq!(AppError::Provider("p".into()).user_message(), "provider error: p");
    assert_eq!(AppError::Network("n".into()).user_message(), "network error: n");
    assert_eq!(AppError::Security("s".into()).user_message(), "security violation: s");
    assert_eq!(AppError::Validation("v".into()).user_message(), "input error: v");
    assert_eq!(
        AppError::Auth("Bearer eyJsecret".into()).user_message(),
        "authentication failed"
    );
}
