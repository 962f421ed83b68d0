use anyfast::candidates::{
    cf_list_or_default, cf_ranges, default_cf_ips, estimate_test_timeout, is_cloudflare_ip,
    merge_candidate_ips, parse_cf_ip_list, select_candidates,
};

#[test]
fn test_is_cloudflare_ip_104_16() {
    assert!(is_cloudflare_ip("104.16.0.1"));
    assert!(is_cloudflare_ip("104.16.123.45"));
}

#[test]
fn test_is_cloudflare_ip_104_17_to_27() {
    assert!(is_cloudflare_ip("104.17.0.1"));
    assert!(is_cloudflare_ip("104.18.0.1"));
    assert!(is_cloudflare_ip("104.19.0.1"));
    assert!(is_cloudflare_ip("104.20.0.1"));
    assert!(is_cloudflare_ip("104.21.0.1"));
    assert!(is_cloudflare_ip("104.22.0.1"));
    assert!(is_cloudflare_ip("104.23.0.1"));
    assert!(is_cloudflare_ip("104.24.0.1"));
    assert!(is_cloudflare_ip("104.25.0.1"));
    assert!(is_cloudflare_ip("104.26.0.1"));
    assert!(is_cloudflare_ip("104.27.0.1"));
}

#[test]
fn test_is_cloudflare_ip_172_67() {
    assert!(is_cloudflare_ip("172.67.0.1"));
    assert!(is_cloudflare_ip("172.67.100.200"));
}

#[test]
fn test_is_cloudflare_ip_162_159() {
    assert!(is_cloudflare_ip("162.159.0.1"));
    assert!(is_cloudflare_ip("162.159.128.100"));
}

#[test]
fn test_is_cloudflare_ip_not_cf() {
    assert!(!is_cloudflare_ip("1.1.1.1"));
    assert!(!is_cloudflare_ip("8.8.8.8"));
    assert!(!is_cloudflare_ip("192.168.1.1"));
    assert!(!is_cloudflare_ip("10.0.0.1"));
    assert!(!is_cloudflare_ip("104.15.0.1"));
    assert!(!is_cloudflare_ip("104.28.0.1"));
}

#[test]
fn test_default_cf_ips_are_valid() {
    for ip in default_cf_ips() {
        assert!(
            is_cloudflare_ip(&ip),
            "IP {} should be recognized as CF",
            ip
        );
    }
}

#[test]
fn test_merge_candidate_ips_keeps_order_and_dedupes() {
    let cf_ips = vec![
        "1.1.1.1".to_string(),
        "2.2.2.2".to_string(),
        "1.1.1.1".to_string(),
        "3.3.3.3".to_string(),
    ];
    let dns_ips = vec!["2.2.2.2".to_string(), "4.4.4.4".to_string()];

    let merged = merge_candidate_ips(cf_ips, &dns_ips, 10);
    assert_eq!(merged, vec!["1.1.1.1", "2.2.2.2", "3.3.3.3", "4.4.4.4"]);
}

#[test]
fn test_merge_candidate_ips_respects_limit() {
    let cf_ips = vec![
        "1.1.1.1".to_string(),
        "2.2.2.2".to_string(),
        "3.3.3.3".to_string(),
    ];
    let dns_ips = vec!["4.4.4.4".to_string()];

    let merged = merge_candidate_ips(cf_ips, &dns_ips, 2);
    assert_eq!(merged, vec!["1.1.1.1", "2.2.2.2"]);
}

#[test]
fn test_cf_ranges_coverage() {
    let ranges = cf_ranges();
    assert!(ranges.iter().any(|r| r == "104.16."));
    assert!(ranges.iter().any(|r| r == "104.27."));
    assert!(ranges.iter().any(|r| r == "172.67."));
    assert!(ranges.iter().any(|r| r == "162.159."));
    assert_eq!(ranges.len(), 14);
}

#[test]
fn cf_candidates_merge_best_list_first() {
    // A Cloudflare host's candidates start with the best-address list and
    // still include every DNS answer, deduplicated and capped.
    let custom: Vec<String> = Vec::new();
    let cf_ips = vec!["9.9.9.9".to_string(), "104.16.1.1".to_string()];
    let dns_ips = vec!["104.16.1.1".to_string(), "1.2.3.4".to_string()];
    let fanout: Vec<String> = Vec::new();
    let picked = select_candidates(&custom, true, cf_ips, dns_ips, &fanout);
    assert_eq!(picked, vec!["9.9.9.9", "104.16.1.1", "1.2.3.4"]);
    assert!(picked.len() <= 15);
}

#[test]
fn candidate_list_is_capped_at_fifteen() {
    let custom: Vec<String> = Vec::new();
    let mut cf_ips = Vec::new();
    for i in 0..20 {
        cf_ips.push(format!("10.0.0.{}", i));
    }
    let dns_ips = vec!["1.2.3.4".to_string()];
    let fanout: Vec<String> = Vec::new();
    let picked = select_candidates(&custom, true, cf_ips, dns_ips, &fanout);
    assert_eq!(picked.len(), 15);
}

#[test]
fn preferred_list_is_used_exactly() {
    let custom = vec!["5.5.5.5".to_string(), "6.6.6.6".to_string()];
    let cf_ips = vec!["9.9.9.9".to_string()];
    let dns_ips = vec!["1.2.3.4".to_string()];
    let fanout: Vec<String> = Vec::new();
    let picked = select_candidates(&custom, true, cf_ips, dns_ips, &fanout);
    assert_eq!(picked, custom);
}

#[test]
fn online_feed_parsing_skips_comments_and_blanks() {
    let text = "1.1.1.1, 2.2.2.2\n# comment line\n\r\n 3.3.3.3 \r\n";
    let parsed = parse_cf_ip_list(text);
    assert_eq!(parsed, vec!["1.1.1.1", "2.2.2.2", "3.3.3.3"]);
}

#[test]
fn empty_feed_falls_back_to_builtin_list() {
    let empty = "# nothing here\n".to_string();
    assert_eq!(cf_list_or_default(Some(&empty)).len(), 11);
    assert_eq!(cf_list_or_default(None).len(), 11);
    let good = "8.8.8.8".to_string();
    assert_eq!(cf_list_or_default(Some(&good)), vec!["8.8.8.8"]);
}

#[test]
fn timeout_budget_is_clamped() {
    assert_eq!(estimate_test_timeout(0), 60);
    assert_eq!(estimate_test_timeout(1), 78);
    assert_eq!(estimate_test_timeout(6), 78);
    assert_eq!(estimate_test_timeout(7), 141);
    assert_eq!(estimate_test_timeout(12), 141);
    assert_eq!(estimate_test_timeout(13), 180);
    assert_eq!(estimate_test_timeout(100), 180);
}
