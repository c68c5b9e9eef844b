use rusteams::config::{AppConfig, CliOverrides, EnvVars, TomlValue};
use rusteams::error::AppError;
use rusteams::text::parse_u64;

#[test]
fn defaults_are_safe() {
    let c = AppConfig::default();
    assert_eq!(c.tenant_id, "organizations");
    assert!(c.graph_base_url.starts_with("https://"));
    assert!(c.client_id.is_none());
}

#[test]
fn precedence_cli_over_env_over_file_over_defaults() {
    let file = AppConfig::from_toml_str(
        "[rusteams]\ntenant_id = \"file-tenant\"\npoll_interval_secs = 30\n",
    )
    .unwrap();
    let env = EnvVars { tenant_id: Some("env-tenant".to_string()), ..Default::default() };
    let with_env = file.with_env(env);
    assert_eq!(with_env.tenant_id, "env-tenant");
    assert_eq!(with_env.poll_interval_secs, 30);
    let cli = with_env.with_cli_overrides(CliOverrides {
        tenant_id: Some("cli-tenant".to_string()),
        ..Default::default()
    });
    assert_eq!(cli.tenant_id, "cli-tenant");
    assert_eq!(cli.poll_interval_secs, 30);
}

#[test]
fn poll_interval_is_clamped_to_minimum_one() {
    let c = AppConfig::from_toml_str("poll_interval_secs = 0").unwrap();
    assert_eq!(c.poll_interval_secs, 1);
}

#[test]
fn malformed_toml_is_a_config_error() {
    assert!(AppConfig::from_toml_str("[[[broken").is_err());
    match AppConfig::from_toml_str("[[[broken") {
        Err(AppError::Config(m)) => assert!(m.starts_with("bad TOML: ")),
        other => panic!("unexpected {other:?}"),
    }
}

#[test]
fn blank_toml_gives_defaults() {
    assert_eq!(AppConfig::from_toml_str(" \n\t ").unwrap(), AppConfig::default());
    assert_eq!(AppConfig::from_toml_str("").unwrap(), AppConfig::default());
}

#[test]
fn bare_keys_and_wrong_types_fall_back() {
    let c = AppConfig::from_toml_str(
        "client_id = \"abc\"\ngraph_base_url = 5\npoll_interval_secs = \"7\"\n",
    )
    .unwrap();
    assert_eq!(c.client_id.as_deref(), Some("abc"));
    assert_eq!(c.graph_base_url, "https://graph.microsoft.com/v1.0");
    assert_eq!(c.poll_interval_secs, 15);
}

#[test]
fn documents_map_through_from_document() {
    let doc = TomlValue::Table(vec![(
        "rusteams".to_string(),
        TomlValue::Table(vec![
            ("tenant_id".to_string(), TomlValue::Str("t".to_string())),
            ("poll_interval_secs".to_string(), TomlValue::Int(-4)),
        ]),
    )]);
    let c = AppConfig::from_document(&doc);
    assert_eq!(c.tenant_id, "t");
    assert_eq!(c.poll_interval_secs, 1);
}

#[test]
fn env_poll_interval_must_parse() {
    let base = AppConfig::default();
    let bad = EnvVars { poll_interval_secs: Some("fast".into()), ..Default::default() };
    assert_eq!(base.clone().with_env(bad).poll_interval_secs, 15);
    let zero = EnvVars { poll_interval_secs: Some("0".into()), ..Default::default() };
    assert_eq!(base.clone().with_env(zero).poll_interval_secs, 1);
    let plus = EnvVars { poll_interval_secs: Some("+42".into()), ..Default::default() };
    assert_eq!(base.clone().with_env(plus).poll_interval_secs, 42);
    let all = EnvVars {
        client_id: Some("id".into()),
        tenant_id: Some("tn".into()),
        graph_base_url: Some("http://g".into()),
        poll_interval_secs: None,
    };
    let c = base.with_env(all);
    assert_eq!(c.client_id.as_deref(), Some("id"));
    assert_eq!(c.tenant_id, "tn");
    assert_eq!(c.graph_base_url, "http://g");
}

#[test]
fn cli_poll_interval_is_clamped() {
    let c = AppConfig::default().with_cli_overrides(CliOverrides {
        poll_interval_secs: Some(0),
        client_id: Some("x".into()),
        ..Default::default()
    });
    assert_eq!(c.poll_interval_secs, 1);
    assert_eq!(c.client_id.as_deref(), Some("x"));
}

#[test]
fn unsigned_parsing_matches_std() {
    for s in ["0", "15", "+7", "18446744073709551615", "18446744073709551616", "", "+", "-1", "1 ", "x"] {
        assert_eq!(parse_u64(s), s.parse::<u64>().ok(), "input {s:?}");
    }
}

#[test]
fn report_shows_settings_but_never_the_client_id() {
    let mut c = AppConfig::default();
    assert_eq!(
        c.report(),
        vec![
            "tenant_id: organizations".to_string(),
            "graph_base_url: https://graph.microsoft.com/v1.0".to_string(),
            "poll_interval_secs: 15".to_string(),
            "client_id: <unset>".to_string(),
        ]
    );
    c.client_id = Some("secret-app-id".into());
    c.poll_interval_secs = 3600;
    let lines = c.report();
    assert_eq!(lines[2], "poll_interval_secs: 3600");
    assert_eq!(lines[3], "client_id: <set>");
    assert!(lines.iter().all(|l| !l.contains("secret-app-id")));
}

#[test]
fn sign_in_needs_a_client_id() {
    let mut c = AppConfig::default();
    match c.require_client_id() {
        Err(AppError::Config(m)) => assert!(m.contains("RUSTEAMS_CLIENT_ID")),
        other => panic!("unexpected {other:?}"),
    }
    c.client_id = Some("abc".into());
    assert_eq!(c.require_client_id().unwrap(), "abc");
}

#[test]
fn decimal_matches_format() {
    for n in [0u64, 7, 10, 15, 100, 3600, 1234567890, u64::MAX] {
        assert_eq!(rusteams::text::decimal(n), format!("{n}"));
    }
}
