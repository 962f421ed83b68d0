use anyfast::config::{compare_versions, get_hosts_path, AppConfig};
use anyfast::hosts::{validate_domain, validate_ip};
use anyfast::history::{HistoryManager, HistoryRecord, HistoryStats};
use anyfast::probe::{Endpoint, EndpointResult};
use anyfast::workflow::{collect_apply_plan, WorkflowResult};

#[test]
fn test_app_config_default() {
    let config = AppConfig::default();

    assert_eq!(config.check_interval, 120);
    assert_eq!(config.slow_threshold, 150);
    assert_eq!(config.failure_threshold, 5);
    assert_eq!(config.test_count, 3);
    assert!(!config.autostart);
    assert_eq!(config.endpoints.len(), 27);
    assert_eq!(config.endpoints[0].name, "anyrouter");
    assert!(config.endpoints[0].enabled);
}

#[test]
fn test_history_record() {
    let record = HistoryRecord {
        timestamp: 1706400000,
        domain: "test.com".into(),
        original_latency: 200,
        optimized_latency: 100,
        speedup_percent: 50,
        applied: true,
    };

    assert_eq!(record.domain, "test.com");
    assert!(record.applied);
}

#[test]
fn test_history_stats_default() {
    let stats = HistoryStats::default();

    assert_eq!(stats.total_tests, 0);
    assert_eq!(stats.total_speedup_ms, 0);
    assert_eq!(stats.avg_speedup_percent, 0);
    assert!(stats.records.is_empty());
}

#[test]
fn test_workflow_result_creation() {
    let ep = Endpoint {
        name: "Test".into(),
        url: "https://test.com".into(),
        domain: "test.com".into(),
        enabled: true,
    };
    let endpoint_result = EndpointResult::success(ep, "1.2.3.4".into(), 100);

    let workflow_result = WorkflowResult {
        test_count: 2,
        success_count: 1,
        applied_count: 1,
        kept_count: 0,
        results: vec![endpoint_result],
    };

    assert_eq!(workflow_result.test_count, 2);
    assert_eq!(workflow_result.success_count, 1);
    assert_eq!(workflow_result.applied_count, 1);
    assert_eq!(workflow_result.results.len(), 1);
}

#[test]
fn version_comparison_is_by_numeric_parts() {
    assert!(compare_versions("1.2.3", "1.2.2"));
    assert!(compare_versions("2.0", "1.9.9"));
    assert!(!compare_versions("1.2.3", "1.2.3"));
    assert!(!compare_versions("1.2", "1.2.0"));
    assert!(compare_versions("1.10", "1.9"));
    assert!(!compare_versions("0.9", "1.0"));
}

#[test]
fn hosts_path_is_fixed() {
    assert_eq!(get_hosts_path(), "/etc/hosts");
}

#[test]
fn history_prunes_expired_records() {
    let now = 1_000_000_000i64;
    let week = 7 * 24 * 60 * 60;
    let mut history = HistoryManager::new();
    history.add_record(
        HistoryRecord {
            timestamp: now - week - 10,
            domain: "old.test".into(),
            original_latency: 100,
            optimized_latency: 50,
            speedup_percent: 50,
            applied: true,
        },
        now,
    );
    history.add_record(
        HistoryRecord {
            timestamp: now - 60,
            domain: "fresh.test".into(),
            original_latency: 100,
            optimized_latency: 50,
            speedup_percent: 50,
            applied: true,
        },
        now,
    );
    assert_eq!(history.records().len(), 1);
    assert_eq!(history.records()[0].domain, "fresh.test");

    let removed = history.clear_old(now + week + 120);
    assert_eq!(removed, 1);
    assert!(history.records().is_empty());
}

#[test]
fn history_stats_totals_and_order() {
    let now = 1_000_000i64;
    let rec = |ts: i64, orig: u64, opt: u64, pct: u64| HistoryRecord {
        timestamp: ts,
        domain: "x.test".into(),
        original_latency: orig,
        optimized_latency: opt,
        speedup_percent: pct,
        applied: true,
    };
    let mut history = HistoryManager::new();
    history.add_records(
        vec![rec(now - 30, 200, 100, 50), rec(now - 10, 300, 150, 50), rec(now - 20, 100, 100, 0)],
        now,
    );
    let stats = history.get_stats(0, now);
    assert_eq!(stats.total_tests, 3);
    assert_eq!(stats.total_speedup_ms, 250);
    assert_eq!(stats.avg_speedup_percent, 50);
    assert_eq!(stats.records.len(), 3);
    assert!(stats.records[0].timestamp >= stats.records[1].timestamp);
    assert!(stats.records[1].timestamp >= stats.records[2].timestamp);
}

#[test]
fn apply_plan_collects_successes_only() {
    let ep = |d: &str| Endpoint {
        name: d.into(),
        url: format!("https://{}", d),
        domain: d.into(),
        enabled: true,
    };
    let results = vec![
        EndpointResult::success(ep("a.test"), "1.1.1.1".into(), 50),
        EndpointResult::failure(ep("b.test"), "2.2.2.2".into(), "down".into()),
        EndpointResult::success(ep("c.test"), "3.3.3.3".into(), 70),
    ];
    let plan = collect_apply_plan(&results, 12345);
    assert_eq!(plan.success_count, 2);
    assert_eq!(plan.bindings.len(), 2);
    assert_eq!(plan.bindings[0].domain, "a.test");
    assert_eq!(plan.bindings[0].ip, "1.1.1.1");
    assert_eq!(plan.bindings[1].domain, "c.test");
    assert_eq!(plan.records.len(), 2);
    assert!(plan.records.iter().all(|r| r.applied && r.timestamp == 12345));
}

#[test]
fn validation_covers_address_families() {
    assert!(validate_ip("1.2.3.4").is_ok());
    assert!(validate_ip("255.255.255.255").is_ok());
    assert!(validate_ip("256.1.1.1").is_err());
    assert!(validate_ip("01.2.3.4").is_err());
    assert!(validate_ip("1.2.3").is_err());
    assert!(validate_ip("::1").is_ok());
    assert!(validate_ip("2001:db8::1").is_ok());
    assert!(validate_ip("1:2:3:4:5:6:7:8").is_ok());
    assert!(validate_ip("::ffff:1.2.3.4").is_ok());
    assert!(validate_ip("1::2::3").is_err());
    assert!(validate_ip(":::").is_err());
    assert!(validate_ip("").is_err());

    assert!(validate_domain("example.com").is_ok());
    assert!(validate_domain("a-b_c.d").is_ok());
    assert!(validate_domain("").is_err());
    assert!(validate_domain("has space").is_err());
    assert!(validate_domain("evil\r\nhost").is_err());
}
