use anyfast::probe::{sort_results, Endpoint, EndpointResult};
use anyfast::tester::{
    build_head_request, finalize_endpoint_result, response_is_http, single_ip_outcome,
    EndpointTester,
};

fn sample_endpoint() -> Endpoint {
    Endpoint {
        name: "Test".into(),
        url: "https://test.com".into(),
        domain: "test.com".into(),
        enabled: true,
    }
}

#[test]
fn test_endpoint_creation() {
    let ep = Endpoint {
        name: "Test".into(),
        url: "https://test.com/api".into(),
        domain: "test.com".into(),
        enabled: true,
    };
    assert_eq!(ep.name, "Test");
    assert_eq!(ep.domain, "test.com");
    assert!(ep.enabled);
}

#[test]
fn test_endpoint_result_success() {
    let result = EndpointResult::success(sample_endpoint(), "1.2.3.4".into(), 100);
    assert!(result.success);
    assert_eq!(result.ip, "1.2.3.4");
    assert_eq!(result.latency, 100);
    assert!(result.error.is_none());
}

#[test]
fn test_endpoint_result_failure() {
    let result = EndpointResult::failure(sample_endpoint(), "1.2.3.4".into(), "Timeout".into());
    assert!(!result.success);
    assert_eq!(result.latency, 9999);
    assert_eq!(result.error, Some("Timeout".into()));
}

#[test]
fn test_endpoint_result_with_comparison_speedup() {
    // Original 200 ms, optimized 100 ms: half the time, a 50% speedup.
    let result =
        EndpointResult::success_with_comparison(sample_endpoint(), "1.2.3.4".into(), 100, "5.6.7.8".into(), 200);
    assert!(result.success);
    assert_eq!(result.ip, "1.2.3.4");
    assert_eq!(result.latency, 100);
    assert_eq!(result.original_ip, "5.6.7.8");
    assert_eq!(result.original_latency, 200);
    assert_eq!(result.speedup_percent, 50);
    assert!(!result.use_original);
}

#[test]
fn test_endpoint_result_with_comparison_use_original() {
    let result =
        EndpointResult::success_with_comparison(sample_endpoint(), "5.6.7.8".into(), 100, "5.6.7.8".into(), 100);
    assert!(result.success);
    assert_eq!(result.ip, "5.6.7.8");
    assert_eq!(result.latency, 100);
    assert!(result.use_original);
}

#[test]
fn test_endpoint_result_with_comparison_equal() {
    let result =
        EndpointResult::success_with_comparison(sample_endpoint(), "5.6.7.8".into(), 100, "5.6.7.8".into(), 100);
    assert!(result.use_original);
    assert_eq!(result.ip, "5.6.7.8");
    assert_eq!(result.speedup_percent, 0);
}

#[test]
fn slower_candidate_reports_no_negative_speedup() {
    let result =
        EndpointResult::success_with_comparison(sample_endpoint(), "1.2.3.4".into(), 300, "5.6.7.8".into(), 200);
    assert_eq!(result.speedup_percent, 0);
}

#[test]
fn test_endpoint_tester_creation() {
    let tester = EndpointTester::new(vec![], 3);
    assert_eq!(tester.test_rounds, 3);
}

#[test]
fn test_endpoint_tester_with_custom_ips() {
    let custom_ips = vec!["1.2.3.4".to_string()];
    let tester = EndpointTester::new(custom_ips.clone(), 3);
    assert_eq!(tester.custom_cf_ips.len(), 1);
    assert_eq!(tester.custom_cf_ips[0], "1.2.3.4");
}

#[test]
fn test_endpoint_tester_cancel() {
    let mut tester = EndpointTester::new(vec![], 3);
    assert!(!tester.is_cancelled());
    tester.cancel();
    assert!(tester.is_cancelled());
}

#[test]
fn test_endpoint_tester_test_rounds_clamping() {
    let tester_low = EndpointTester::new(vec![], 0);
    assert_eq!(tester_low.test_rounds, 1);

    let tester_high = EndpointTester::new(vec![], 10);
    assert_eq!(tester_high.test_rounds, 5);

    let tester_normal = EndpointTester::new(vec![], 3);
    assert_eq!(tester_normal.test_rounds, 3);
}

#[test]
fn median_of_three_rounds_is_the_middle_value() {
    // Rounds of 70, 300 and 90 milliseconds report the median, 90.
    let outcomes = vec![Some(70), Some(300), Some(90)];
    let result = single_ip_outcome(sample_endpoint(), "1.2.3.4".into(), &outcomes);
    assert!(result.success);
    assert_eq!(result.latency, 90);
}

#[test]
fn first_round_failure_fails_the_address() {
    let outcomes = vec![None, Some(50), Some(60)];
    let result = single_ip_outcome(sample_endpoint(), "1.2.3.4".into(), &outcomes);
    assert!(!result.success);
    assert_eq!(result.latency, 9999);
}

#[test]
fn later_round_failures_are_ignored() {
    let outcomes = vec![Some(80), None, Some(120)];
    let result = single_ip_outcome(sample_endpoint(), "1.2.3.4".into(), &outcomes);
    assert!(result.success);
    assert_eq!(result.latency, 120);
}

#[test]
fn results_sort_successes_first_then_latency() {
    let mk = |name: &str, ok: bool, lat: u64| {
        let ep = Endpoint {
            name: name.into(),
            url: "https://x".into(),
            domain: format!("{}.test", name),
            enabled: true,
        };
        if ok {
            EndpointResult::success(ep, "1.2.3.4".into(), lat)
        } else {
            EndpointResult::failure(ep, "1.2.3.4".into(), "down".into())
        }
    };
    let sorted = sort_results(vec![
        mk("a", false, 0),
        mk("b", true, 120),
        mk("c", true, 40),
        mk("d", false, 0),
        mk("e", true, 80),
    ]);
    assert_eq!(sorted.len(), 5);
    assert!(sorted[0].success && sorted[0].latency == 40);
    assert!(sorted[1].success && sorted[1].latency == 80);
    assert!(sorted[2].success && sorted[2].latency == 120);
    assert!(!sorted[3].success);
    assert!(!sorted[4].success);
}

#[test]
fn fallback_to_original_carries_warning_for_preferred_list() {
    let r = finalize_endpoint_result(sample_endpoint(), None, "5.6.7.8".into(), true, 90, true, false);
    assert!(r.success);
    assert!(r.use_original);
    assert_eq!(r.latency, 90);
    assert!(r.warning.is_some());

    let quiet = finalize_endpoint_result(sample_endpoint(), None, "5.6.7.8".into(), true, 90, false, false);
    assert!(quiet.warning.is_none());
}

#[test]
fn best_candidate_wins_over_original() {
    let r = finalize_endpoint_result(
        sample_endpoint(),
        Some(("1.2.3.4".into(), 50)),
        "5.6.7.8".into(),
        true,
        200,
        false,
        true,
    );
    assert!(r.success);
    assert_eq!(r.ip, "1.2.3.4");
    assert_eq!(r.latency, 50);
    assert_eq!(r.original_latency, 200);
    assert_eq!(r.speedup_percent, 75);
    assert!(!r.use_original);
}

#[test]
fn nothing_working_is_a_failure() {
    let r = finalize_endpoint_result(sample_endpoint(), None, "5.6.7.8".into(), false, 0, false, false);
    assert!(!r.success);
    assert_eq!(r.latency, 9999);
    assert_eq!(r.ip, "5.6.7.8");
}

#[test]
fn head_request_has_fixed_shape() {
    let req = build_head_request("test.com");
    assert_eq!(
        req,
        "HEAD / HTTP/1.1\r\nHost: test.com\r\nUser-Agent: anyrouter/1.0\r\nConnection: close\r\n\r\n"
    );
}

#[test]
fn response_check_requires_http_prefix() {
    assert!(response_is_http(&b"HTTP/1.1 200 OK".to_vec()));
    assert!(!response_is_http(&b"SSH-2.0-OpenSSH".to_vec()));
    assert!(!response_is_http(&b"HTT".to_vec()));
}
