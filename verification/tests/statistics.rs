//! The statistics pipeline and the latency histogram on concrete runs.

use quickurl::histogram::Histogram;
use quickurl::stats::{RequestResult, Statistics, StatisticsSnapshot};

fn ok_result(duration_micros: u64, status: u16, bytes: usize, endpoint: Option<&str>) -> RequestResult {
    RequestResult {
        duration_micros,
        status_code: Some(status),
        bytes_read: bytes,
        error: None,
        endpoint: endpoint.map(|e| e.to_string()),
    }
}

fn failed_result(duration_micros: u64, msg: &str, endpoint: Option<&str>) -> RequestResult {
    RequestResult {
        duration_micros,
        status_code: None,
        bytes_read: 0,
        error: Some(msg.to_string()),
        endpoint: endpoint.map(|e| e.to_string()),
    }
}

fn count_of(m: &[(u16, u64)], k: u16) -> u64 {
    m.iter().find(|(c, _)| *c == k).map(|(_, n)| *n).unwrap_or(0)
}

#[test]
fn test_histogram_small_values_are_exact() {
    let mut h = Histogram::new();
    h.record(10);
    h.record(20);
    h.record(30);
    assert_eq!(h.min(), 10);
    assert_eq!(h.max(), 30);
    assert_eq!(h.mean(), 20);
    assert_eq!(h.percentile(50), 20);
    assert_eq!(h.percentile(99), 30);
    assert_eq!(h.percentile(0), 10);
}

#[test]
fn test_histogram_order_of_reports() {
    let mut h = Histogram::new();
    for v in [3_u64, 141, 59, 26_535, 897, 932_384, 6_264_338, 3_279_502, 88_419] {
        h.record(v);
    }
    let (min, mean, max) = (h.min(), h.mean(), h.max());
    assert!(min <= mean && mean <= max);
    let (p50, p75, p90, p95, p99) =
        (h.percentile(50), h.percentile(75), h.percentile(90), h.percentile(95), h.percentile(99));
    assert!(p50 <= p75 && p75 <= p90 && p90 <= p95 && p95 <= p99);
}

#[test]
fn test_histogram_clips_to_one_hour() {
    let mut h = Histogram::new();
    h.record(u64::MAX);
    assert!(h.max() >= 3_600_000_000);
    assert!(h.min() <= 3_600_000_000 + 2_097_151);
}

#[test]
fn test_histogram_bucket_precision() {
    // values above 2048 land in buckets of bounded width
    let mut h = Histogram::new();
    h.record(1_000_000);
    assert!(h.min() <= 1_000_000 && 1_000_000 <= h.max());
    assert!(h.max() - h.min() < 1_024);
}

#[test]
fn test_totals_split_between_success_and_failure() {
    let mut s = Statistics::new();
    s.record(ok_result(1_000, 200, 4, None));
    s.record(ok_result(2_000, 200, 4, None));
    s.record(failed_result(500, "Request timeout", None));
    assert_eq!(s.total_requests, 3);
    assert_eq!(s.successful_requests, 2);
    assert_eq!(s.failed_requests, 1);
    assert_eq!(s.total_requests, s.successful_requests + s.failed_requests);
    assert_eq!(s.total_bytes, 8);
}

#[test]
fn test_status_counts_sum_to_total_when_all_respond() {
    let mut s = Statistics::new();
    s.record(ok_result(1_000, 200, 4, None));
    s.record(ok_result(1_500, 404, 2, None));
    s.record(ok_result(900, 200, 4, None));
    let sum: u64 = s.status_codes.iter().map(|(_, n)| n).sum();
    assert_eq!(sum, s.total_requests);
    assert_eq!(count_of(&s.status_codes, 200), 2);
    assert_eq!(count_of(&s.status_codes, 404), 1);
}

#[test]
fn test_error_messages_are_tallied() {
    let mut s = Statistics::new();
    s.record(failed_result(100, "Request timeout", None));
    s.record(failed_result(110, "Request timeout", None));
    s.record(failed_result(120, "Failed to connect", None));
    assert_eq!(s.errors.len(), 2);
    let timeouts = s.errors.iter().find(|(m, _)| m == "Request timeout").unwrap().1;
    assert_eq!(timeouts, 2);
}

#[test]
fn test_endpoint_sums_never_exceed_global() {
    let mut s = Statistics::new();
    s.record(ok_result(1_000, 200, 4, Some("https://a.example")));
    s.record(ok_result(1_200, 200, 6, Some("https://b.example")));
    s.record(failed_result(300, "Request timeout", Some("https://a.example")));
    s.record(ok_result(800, 200, 2, None));
    for (_, ep) in &s.endpoint_stats {
        assert!(ep.requests <= s.total_requests);
        assert!(ep.total_bytes <= s.total_bytes);
        assert!(ep.errors <= s.failed_requests);
    }
    let a = &s.endpoint_stats.iter().find(|(u, _)| u == "https://a.example").unwrap().1;
    assert_eq!(a.requests, 2);
    assert_eq!(a.errors, 1);
    assert_eq!(a.total_bytes, 4);
}

#[test]
fn test_finish_is_idempotent_in_effect() {
    let mut s = Statistics::new();
    s.record(ok_result(1_000, 200, 4, None));
    s.finish();
    let end = s.end_micros;
    assert!(end.is_some());
    let snap1 = StatisticsSnapshot::from_statistics(&s);
    s.finish();
    assert_eq!(s.end_micros, end);
    let snap2 = StatisticsSnapshot::from_statistics(&s);
    assert_eq!(snap1.total_requests, snap2.total_requests);
    assert_eq!(snap1.successful_requests, snap2.successful_requests);
    assert_eq!(snap1.failed_requests, snap2.failed_requests);
    assert_eq!(snap1.total_bytes, snap2.total_bytes);
    assert_eq!(snap1.avg_latency_micros, snap2.avg_latency_micros);
    assert_eq!(snap1.p50_latency_micros, snap2.p50_latency_micros);
    assert_eq!(snap1.p99_latency_micros, snap2.p99_latency_micros);
    assert_eq!(snap1.status_codes, snap2.status_codes);
}

#[test]
fn test_snapshot_copies_the_aggregate() {
    let mut s = Statistics::new();
    s.record(ok_result(1_000, 200, 4, Some("https://a.example")));
    s.record(ok_result(2_000, 201, 8, Some("https://b.example")));
    let snap = StatisticsSnapshot::from_statistics(&s);
    assert_eq!(snap.total_requests, 2);
    assert_eq!(snap.successful_requests, 2);
    assert_eq!(snap.failed_requests, 0);
    assert_eq!(snap.total_bytes, 12);
    assert_eq!(snap.min_latency_micros, 1_000);
    assert_eq!(snap.max_latency_micros, 2_000);
    assert_eq!(snap.avg_latency_micros, 1_500);
    assert_eq!(snap.endpoint_stats.len(), 2);
    let empty = StatisticsSnapshot::empty();
    assert_eq!(empty.total_requests, 0);
    assert_eq!(empty.endpoint_stats.len(), 0);
}

#[test]
fn test_empty_statistics_reports_zeroes() {
    let s = Statistics::new();
    assert_eq!(s.avg_latency(), 0);
    assert_eq!(s.min_latency(), 0);
    assert_eq!(s.max_latency(), 0);
    assert_eq!(s.percentile(50), 0);
}

#[test]
fn test_histogram_sum_of_squares() {
    let mut h = Histogram::new();
    h.record(3);
    h.record(4);
    assert_eq!(h.total, 2);
    assert_eq!(h.sum, 7);
    assert_eq!(h.sum_of_squares(), 25);
}
