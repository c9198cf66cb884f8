//! The duration grammar and the curl-command parser, on concrete inputs.

use quickurl::cli::{parse_duration_string, Args, ConfigError};
use quickurl::curl::{parse_curl_command, parse_curl_script, CurlCommand, CurlError};

fn header_value<'a>(headers: &'a [(String, String)], name: &str) -> Option<&'a str> {
    headers.iter().find(|(k, _)| k == name).map(|(_, v)| v.as_str())
}

#[test]
fn test_parse_duration() {
    assert_eq!(parse_duration_string("10s").unwrap(), 10 * 1000);
    assert_eq!(parse_duration_string("5m").unwrap(), 300 * 1000);
    assert_eq!(parse_duration_string("1h").unwrap(), 3600 * 1000);
    assert_eq!(parse_duration_string("100ms").unwrap(), 100);
}

#[test]
fn test_parse_duration_plain_seconds() {
    assert_eq!(parse_duration_string("7").unwrap(), 7 * 1000);
    assert_eq!(parse_duration_string("  30s  ").unwrap(), 30 * 1000);
    assert_eq!(parse_duration_string("+2s").unwrap(), 2 * 1000);
}

#[test]
fn test_parse_duration_rejects_garbage() {
    assert_eq!(parse_duration_string(""), Err(ConfigError::InvalidDuration));
    assert_eq!(parse_duration_string("abc"), Err(ConfigError::InvalidDuration));
    assert_eq!(parse_duration_string("ms"), Err(ConfigError::InvalidDuration));
    assert_eq!(parse_duration_string("5x"), Err(ConfigError::InvalidDuration));
    assert_eq!(parse_duration_string("-5s"), Err(ConfigError::InvalidDuration));
}

#[test]
fn test_args_parse_duration_and_timeout() {
    let mut args = default_args();
    args.duration = "2s".to_string();
    args.timeout = "250ms".to_string();
    assert_eq!(args.parse_duration().unwrap(), 2000);
    assert_eq!(args.parse_timeout().unwrap(), 250);
}

#[test]
fn test_parse_simple_get() {
    let cmd = "curl https://example.com";
    let parsed = parse_curl_command(cmd).unwrap();
    assert_eq!(parsed.url, "https://example.com");
    assert_eq!(parsed.method, "GET");
}

#[test]
fn test_parse_post_with_data() {
    let cmd = r#"curl -X POST -H "Content-Type: application/json" -d '{"key":"value"}' https://api.example.com"#;
    let parsed = parse_curl_command(cmd).unwrap();
    assert_eq!(parsed.url, "https://api.example.com");
    assert_eq!(parsed.method, "POST");
    assert_eq!(header_value(&parsed.headers, "Content-Type").unwrap(), "application/json");
    assert_eq!(parsed.body.unwrap(), r#"{"key":"value"}"#);
}

#[test]
fn test_parse_with_headers() {
    let cmd = r#"curl -H "Authorization: Bearer token123" https://api.example.com"#;
    let parsed = parse_curl_command(cmd).unwrap();
    assert_eq!(header_value(&parsed.headers, "Authorization").unwrap(), "Bearer token123");
}

#[test]
fn test_parse_data_turns_get_into_post() {
    let parsed = parse_curl_command("curl -d payload https://api.example.com").unwrap();
    assert_eq!(parsed.method, "POST");
    assert_eq!(parsed.body.unwrap(), "payload");
}

#[test]
fn test_parse_user_credentials_become_basic_auth() {
    // base64 of "user:pass" under the standard alphabet
    let parsed = parse_curl_command("curl -u user:pass https://api.example.com").unwrap();
    assert_eq!(header_value(&parsed.headers, "Authorization").unwrap(), "Basic dXNlcjpwYXNz");
}

#[test]
fn test_parse_compressed_and_agent() {
    let parsed =
        parse_curl_command("curl --compressed -A probe -e https://ref.example https://x.example")
            .unwrap();
    assert_eq!(header_value(&parsed.headers, "Accept-Encoding").unwrap(), "gzip, deflate");
    assert_eq!(header_value(&parsed.headers, "User-Agent").unwrap(), "probe");
    assert_eq!(header_value(&parsed.headers, "Referer").unwrap(), "https://ref.example");
    assert_eq!(parsed.url, "https://x.example");
}

#[test]
fn test_parse_quoted_tokens() {
    let parsed = parse_curl_command("curl -d 'a b \"c\"' https://x.example").unwrap();
    assert_eq!(parsed.body.unwrap(), "a b \"c\"");
}

#[test]
fn test_parse_without_url_is_rejected() {
    let err = parse_curl_command("curl -X POST").unwrap_err();
    assert_eq!(err, CurlError::NoUrl);
    assert_eq!(err.message(), "No URL found in curl command");
}

#[test]
fn test_parse_curl_script_skips_blanks_and_comments() {
    let text = "# comment\n\ncurl https://a.example\ncurl -X POST\ncurl https://b.example\n";
    let cmds = parse_curl_script(text).unwrap();
    assert_eq!(cmds.len(), 2);
    assert_eq!(cmds[0].url, "https://a.example");
    assert_eq!(cmds[1].url, "https://b.example");
}

#[test]
fn test_parse_curl_script_rejects_empty() {
    let err = parse_curl_script("# nothing here\n").unwrap_err();
    assert_eq!(err, CurlError::NoValidCommand);
}

#[test]
fn test_curl_command_new() {
    let c = CurlCommand::new("https://x.example".to_string());
    assert_eq!(c.url, "https://x.example");
    assert_eq!(c.method, "GET");
    assert!(c.headers.is_empty());
    assert!(c.body.is_none());
}

fn default_args() -> Args {
    Args {
        url: None,
        connections: 10,
        duration: "10s".to_string(),
        threads: 2,
        rate: 0,
        timeout: "30s".to_string(),
        parse_curl: None,
        parse_curl_file: None,
        load_strategy: "random".to_string(),
        method: "GET".to_string(),
        headers: Vec::new(),
        data: None,
        content_type: None,
        verbose: false,
        latency: false,
        live_ui: false,
        use_nethttp: false,
        http2: false,
        mock_server: false,
        mock_port: 8080,
        mock_delay: None,
        mock_response: None,
        mock_status: 200,
        mock_config: None,
        batch_config: None,
        batch_concurrency: 3,
        batch_sequential: false,
        batch_report: "text".to_string(),
        vars: Vec::new(),
        help_templates: false,
    }
}
