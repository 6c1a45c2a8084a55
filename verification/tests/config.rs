use mcpod::auth::{
    constant_time_eq, require_allowed_origin, require_bearer, transport_of,
};
use mcpod::config::{
    check_address, csv_env, duration_unit, parse_port, split_duration, workspace_text, Config,
    ConfigError, EnvVars, Number, PortError,
};

fn config(token: Option<&str>, origins: &[&str]) -> Config {
    Config {
        token: token.map(|t| t.to_string()),
        host: "127.0.0.1".to_string(),
        port: 3000,
        workspace: b"/workspace".to_vec(),
        allowed_hosts: vec![],
        allowed_origins: origins.iter().map(|o| o.to_string()).collect(),
        sse_session_ttl: 1_800_000_000_000,
        sse_keepalive: 15_000_000_000,
    }
}

#[test]
fn matches_equal_and_rejects_different() {
    assert!(constant_time_eq(b"abc", b"abc"));
    assert!(!constant_time_eq(b"abc", b"abd"));
    assert!(!constant_time_eq(b"abc", b"abcd"));
    assert!(!constant_time_eq(b"", b"a"));
}

#[test]
fn transport_labels_follow_endpoint() {
    assert_eq!(transport_of("/mcp"), "streamable_http");
    assert_eq!(transport_of("/sse"), "legacy_sse");
    assert_eq!(transport_of("/messages"), "legacy_sse");
    assert_eq!(transport_of("/health"), "http");
}

#[test]
fn origin_default_allows_loopback_any_port() {
    let config = config(None, &[]);
    for origin in [
        "http://localhost",
        "http://localhost:3000",
        "http://localhost:5173",
        "https://localhost:8443",
        "http://127.0.0.1",
        "http://127.0.0.1:8080",
        "http://[::1]:3000",
    ] {
        assert!(config.origin_allowed(origin), "{origin} should be allowed");
    }
    for origin in [
        "http://evil.example.com",
        "https://attacker.io:3000",
        "http://192.168.1.5:3000",
        "chrome-extension://abc",
        "null",
    ] {
        assert!(!config.origin_allowed(origin), "{origin} should be rejected");
    }
}

#[test]
fn origin_allowlist_exact_match() {
    let config = config(None, &["https://app.example.com"]);
    assert!(config.origin_allowed("https://app.example.com"));
    assert!(!config.origin_allowed("http://localhost:3000"));
}

#[test]
fn loopback_hosts_in_every_form() {
    let config = config(None, &[]);
    assert!(config.origin_allowed("http://[::1]"));
    assert!(config.origin_allowed("https://[::1]:8443"));
    assert!(config.origin_allowed("https://127.0.0.1:1"));
    for origin in [
        "localhost",
        "ftp://localhost",
        "http://localhost.evil.com",
        "http://[::2]",
        "http://[localhost]",
        "http://[127.0.0.1]:80",
        "http://[[::1]]",
        "http://::1",
        "http://::1:3000",
        "http://localhost:",
        "http://localhost:x",
        "http://localhost:80a",
        "http://localhost:80:80",
        "http://localhost:3000/path",
        "http://localhost3000",
    ] {
        assert!(!config.origin_allowed(origin), "{origin} should be rejected");
    }
}

#[test]
fn bearer_tokens() {
    let open = config(None, &[]);
    assert!(require_bearer(&open, None).is_ok());
    assert!(require_bearer(&open, Some(b"Basic xyz")).is_ok());

    let guarded = config(Some("s3cret"), &[]);
    assert!(require_bearer(&guarded, Some(b"Bearer s3cret")).is_ok());
    for header in [
        None,
        Some(b"".as_slice()),
        Some(b"s3cret"),
        Some(b"bearer s3cret"),
        Some(b"Bearer s3cret "),
        Some(b"Bearer s3cre"),
        Some(b"Bearer  s3cret"),
        Some(b"Bearer \xff3cret"),
    ] {
        let rejection = require_bearer(&guarded, header).unwrap_err();
        assert_eq!(rejection.status, 401);
        assert_eq!(rejection.www_authenticate, Some("Bearer"));
        assert_eq!(rejection.body, "Unauthorized");
    }
    // A token beyond ASCII cannot come in a header that reads as text.
    let accented = config(Some("é"), &[]);
    assert!(require_bearer(&accented, Some("Bearer é".as_bytes())).is_err());
}

#[test]
fn origin_headers() {
    let config = config(None, &[]);
    assert!(require_allowed_origin(&config, None).is_ok());
    assert!(require_allowed_origin(&config, Some(b"http://localhost:5173")).is_ok());
    let rejection =
        require_allowed_origin(&config, Some(b"http://evil.example.com")).unwrap_err();
    assert_eq!(rejection.status, 403);
    assert_eq!(rejection.www_authenticate, None);
    assert_eq!(rejection.body, "Forbidden: origin not allowed");
    // A header that does not read as text is no allowed origin.
    for value in [b"http://\xff".as_slice(), b"http://localhost\x7f", b"\x00"] {
        assert_eq!(require_allowed_origin(&config, Some(value)).unwrap_err().status, 403);
    }
    assert!(require_allowed_origin(&config, Some(b"")).is_err());
}

#[test]
fn ports() {
    assert_eq!(parse_port("3000"), Ok(3000));
    assert_eq!(parse_port("+0080"), Ok(80));
    assert_eq!(parse_port("65535"), Ok(65535));
    assert_eq!(parse_port("65536"), Err(PortError::TooLarge));
    assert_eq!(parse_port("99999x"), Err(PortError::TooLarge));
    for text in ["+", "-1", " 80", "80 ", "8o", "x99999", "８０"] {
        assert_eq!(parse_port(text), Err(PortError::InvalidDigit), "{text}");
    }
    assert_eq!(parse_port(""), Err(PortError::Empty));
    for text in ["", "+", "-5", "12", "+7", "65535", "65536", "6553x", "99999x", "0065535"] {
        assert_eq!(parse_port(text).ok(), text.parse::<u16>().ok(), "{text}");
    }
}

fn vars() -> EnvVars {
    EnvVars {
        token: None,
        host: None,
        port: None,
        workspace: None,
        allowed_hosts: None,
        allowed_origins: None,
    }
}

fn set(value: &str) -> Option<String> {
    Some(value.to_string())
}

fn failure(message: &str) -> ConfigError {
    ConfigError { message: message.to_string(), cause: None }
}

#[test]
fn defaults() {
    let config =
        Config::from_env(&vars(), Ok(()), Ok(b"/workspace".to_vec()), Ok(7), Ok(8)).unwrap();
    assert_eq!(config.token, None);
    assert_eq!(config.host, "127.0.0.1");
    assert_eq!(config.port, 3000);
    assert_eq!(config.workspace, b"/workspace");
    assert!(config.allowed_hosts.is_empty() && config.allowed_origins.is_empty());
    assert_eq!((config.sse_session_ttl, config.sse_keepalive), (7, 8));
    assert_eq!(workspace_text(&vars()), "/workspace");
}

#[test]
fn configured_values() {
    let vars = EnvVars {
        token: set("  t0ken \n"),
        host: set("0.0.0.0"),
        port: set("8080"),
        workspace: set("/ws"),
        allowed_hosts: set("a.example, b.example ,,"),
        allowed_origins: set(" , "),
    };
    let config = Config::from_env(&vars, Ok(()), Ok(b"/real/ws".to_vec()), Ok(1), Ok(2)).unwrap();
    assert_eq!(config.token.as_deref(), Some("t0ken"));
    assert_eq!((config.host.as_str(), config.port), ("0.0.0.0", 8080));
    assert_eq!(config.workspace, b"/real/ws");
    assert_eq!(config.allowed_hosts, ["a.example", "b.example"]);
    assert!(config.allowed_origins.is_empty());
    assert_eq!(workspace_text(&vars), "/ws");
    assert_eq!(csv_env(&set("x,\ty z\u{3000},x")), ["x", "y z", "x"]);
}

#[test]
fn a_blank_token_is_none() {
    let mut vars = vars();
    vars.token = set(" \t ");
    let config = Config::from_env(&vars, Ok(()), Ok(vec![]), Ok(1), Ok(1)).unwrap();
    assert_eq!(config.token, None);
}

#[test]
fn the_first_problem_is_reported() {
    let mut bad = vars();
    bad.port = set("http");
    let all = |vars: &EnvVars, host: Result<(), String>| {
        Config::from_env(vars, host, Err("gone".into()), Err(failure("ttl")), Err(failure("ka")))
            .unwrap_err()
    };
    let host = all(&bad, Err("invalid IP address syntax".to_string()));
    assert_eq!(host.message, "invalid MCPOD_HOST");
    assert_eq!(host.cause.as_deref(), Some("invalid IP address syntax"));
    let port = all(&bad, Ok(()));
    assert_eq!(port.message, "invalid MCPOD_PORT");
    assert_eq!(port.cause.as_deref(), Some("invalid digit found in string"));
    assert_eq!(check_address(&bad, Ok(())).unwrap_err().message, "invalid MCPOD_PORT");
    assert_eq!(check_address(&vars(), Ok(())).unwrap(), 3000);
    let workspace = all(&vars(), Ok(()));
    assert_eq!(workspace.message, "invalid MCPOD_WORKSPACE");
    assert_eq!(workspace.cause.as_deref(), Some("gone"));
    let ttl = Config::from_env(&vars(), Ok(()), Ok(vec![]), Err(failure("ttl")), Err(failure("k")));
    assert_eq!(ttl.unwrap_err().message, "ttl");
    let keepalive = Config::from_env(&vars(), Ok(()), Ok(vec![]), Ok(1), Err(failure("k")));
    assert_eq!(keepalive.unwrap_err().message, "k");
}

#[test]
fn port_problems_in_words() {
    for text in ["", "x", "70000"] {
        let mut vars = vars();
        vars.port = set(text);
        let cause = check_address(&vars, Ok(())).unwrap_err().cause.unwrap();
        assert_eq!(cause, text.parse::<u16>().unwrap_err().to_string());
    }
}

#[test]
fn durations() {
    for (text, number, unit, seconds) in [
        ("30m", "30", "m", 60),
        (" 15 s ", "15", "s", 1),
        ("1.5h", "1.5", "h", 3600),
        ("90", "90", "", 1),
    ] {
        let parts = split_duration(&set(text)).unwrap();
        assert_eq!((parts.number.as_str(), parts.unit.as_str()), (number, unit));
        assert_eq!(duration_unit("X", &parts, Number::Positive).unwrap(), seconds);
    }
    assert!(split_duration(&None).is_none());
    assert!(split_duration(&set(" \t")).is_none());
}

#[test]
fn invalid_durations() {
    let parts = split_duration(&set(" -5 days ")).unwrap();
    assert_eq!((parts.raw.as_str(), parts.number.as_str()), ("-5 days", "-5"));
    let error = duration_unit("TTL", &parts, Number::Positive).unwrap_err();
    assert_eq!(error.message, "invalid TTL unit: days (use s, m, or h)");
    assert_eq!(error.cause, None);
    let error = duration_unit("TTL", &parts, Number::NotPositive).unwrap_err();
    assert_eq!(error.message, "invalid TTL: -5 days (must be positive)");
    let error = duration_unit("TTL", &parts, Number::Malformed("why".into())).unwrap_err();
    assert_eq!(error.message, "invalid TTL: -5 days");
    assert_eq!(error.cause.as_deref(), Some("why"));
    // A letter inside the number begins the unit.
    let parts = split_duration(&set("1e3s")).unwrap();
    assert_eq!((parts.number.as_str(), parts.unit.as_str()), ("1", "e3s"));
}
