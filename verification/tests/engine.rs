//! The worker-pool arithmetic, selection policy and outcome composition.

use quickurl::cli::Args;
use quickurl::curl::parse_curl_command;
use quickurl::engine::{
    actual_threads, compose_outcome, connections_per_client, connections_per_thread,
    create_command_from_args, pace_delay_micros, parse_load_strategy, pool_index, pool_size,
    select_template_index, LoadStrategy,
};

#[test]
fn test_thread_sizing() {
    assert_eq!(actual_threads(0, 8), 8);
    assert_eq!(actual_threads(4, 8), 4);
    assert_eq!(actual_threads(100, 8), 16);
}

#[test]
fn test_connection_shares() {
    assert_eq!(connections_per_thread(16, 4), 4);
    assert_eq!(connections_per_thread(3, 8), 1);
    assert_eq!(connections_per_client(40, 20), 2);
    assert_eq!(pool_size(4), 4);
    assert_eq!(pool_size(64), 20);
}

#[test]
fn test_pool_round_robin() {
    assert_eq!(pool_index(0, 3), 0);
    assert_eq!(pool_index(1, 3), 1);
    assert_eq!(pool_index(5, 3), 2);
}

#[test]
fn test_load_strategy_parsing() {
    assert_eq!(parse_load_strategy("round-robin"), LoadStrategy::RoundRobin);
    assert_eq!(parse_load_strategy("random"), LoadStrategy::Random);
    assert_eq!(parse_load_strategy("anything"), LoadStrategy::Random);
}

#[test]
fn test_round_robin_selection_is_balanced() {
    // three templates, counts over many requests differ by at most one
    let mut picks = [0u32; 3];
    for count in 0..100u64 {
        let i = select_template_index(LoadStrategy::RoundRobin, count, 3);
        picks[i] += 1;
    }
    assert_eq!(picks, [34, 33, 33]);
}

#[test]
fn test_random_selection_stays_in_range() {
    for count in 0..50u64 {
        let i = select_template_index(LoadStrategy::Random, count, 4);
        assert!(i < 4);
    }
}

#[test]
fn test_pacing_delay() {
    assert_eq!(pace_delay_micros(0), 0);
    assert_eq!(pace_delay_micros(100), 10_000);
    assert_eq!(pace_delay_micros(1), 1_000_000);
    assert_eq!(pace_delay_micros(3), 333_333);
}

#[test]
fn test_compose_outcome_success() {
    let url = "https://a.example".to_string();
    let r = compose_outcome(Ok((200, 4)), 1234, &url, 2);
    assert_eq!(r.duration_micros, 1234);
    assert_eq!(r.status_code, Some(200));
    assert_eq!(r.bytes_read, 4);
    assert!(r.error.is_none());
    assert_eq!(r.endpoint.as_deref(), Some("https://a.example"));
}

#[test]
fn test_compose_outcome_failure_and_single_template() {
    let url = "https://a.example".to_string();
    let r = compose_outcome(Err("Request timeout".to_string()), 99, &url, 1);
    assert_eq!(r.duration_micros, 99);
    assert!(r.status_code.is_none());
    assert_eq!(r.bytes_read, 0);
    assert_eq!(r.error.as_deref(), Some("Request timeout"));
    assert!(r.endpoint.is_none());
}

#[test]
fn test_create_command_from_args() {
    let mut args = base_args();
    args.method = "PUT".to_string();
    args.headers = vec!["X-One: 1".to_string(), "X-Two: 2".to_string()];
    args.content_type = Some("application/json".to_string());
    args.data = Some("{}".to_string());
    let cmd = create_command_from_args(&args, "https://t.example".to_string());
    assert_eq!(cmd.url, "https://t.example");
    assert_eq!(cmd.method, "PUT");
    assert_eq!(cmd.body.as_deref(), Some("{}"));
    let find = |k: &str| {
        cmd.headers.iter().find(|(n, _)| n == k).map(|(_, v)| v.as_str())
    };
    assert_eq!(find("X-One"), Some("1"));
    assert_eq!(find("X-Two"), Some("2"));
    assert_eq!(find("Content-Type"), Some("application/json"));
}

#[test]
fn test_batch_args_carry_the_parsed_command() {
    let cmd = parse_curl_command(
        "curl -X POST -H 'X-K: v' -d body https://batch.example",
    )
    .unwrap();
    let test = quickurl::batch::TestConfig {
        name: "t".to_string(),
        curl: "unused".to_string(),
        connections: 7,
        duration: "2s".to_string(),
        threads: 3,
        rate: 50,
        timeout: "1s".to_string(),
        verbose: true,
        use_nethttp: false,
    };
    let args = quickurl::batch::build_test_args(&test, &cmd);
    assert_eq!(args.url.as_deref(), Some("https://batch.example"));
    assert_eq!(args.connections, 7);
    assert_eq!(args.duration, "2s");
    assert_eq!(args.threads, 3);
    assert_eq!(args.rate, 50);
    assert_eq!(args.method, "POST");
    assert_eq!(args.headers, vec!["X-K: v".to_string()]);
    assert_eq!(args.data.as_deref(), Some("body"));
    assert!(args.verbose);
    assert!(!args.live_ui);
}

#[test]
fn test_batch_defaults() {
    assert_eq!(quickurl::batch::default_connections(), 10);
    assert_eq!(quickurl::batch::default_duration(), "10s");
    assert_eq!(quickurl::batch::default_threads(), 2);
    assert_eq!(quickurl::batch::default_timeout(), "30s");
}

fn base_args() -> Args {
    Args {
        url: None,
        connections: 10,
        duration: "10s".to_string(),
        threads: 2,
        rate: 0,
        timeout: "30s".to_string(),
        parse_curl: None,
        parse_curl_file: None,
        load_strategy: "random".to_string(),
        method: "GET".to_string(),
        headers: Vec::new(),
        data: None,
        content_type: None,
        verbose: false,
        latency: false,
        live_ui: false,
        use_nethttp: false,
        http2: false,
        mock_server: false,
        mock_port: 8080,
        mock_delay: None,
        mock_response: None,
        mock_status: 200,
        mock_config: None,
        batch_config: None,
        batch_concurrency: 3,
        batch_sequential: false,
        batch_report: "text".to_string(),
        vars: Vec::new(),
        help_templates: false,
    }
}
