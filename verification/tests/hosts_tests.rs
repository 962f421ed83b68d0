use anyfast::hosts::{HostsBinding, HostsError, ParsedHosts, TestableHostsManager};

fn manager(content: &str) -> TestableHostsManager {
    TestableHostsManager::new(content.to_string())
}

#[test]
fn test_read_binding_empty_file() {
    let manager = manager("");
    assert!(manager.read_binding("test.com").is_none());
}

#[test]
fn test_read_binding_not_found() {
    let content = "127.0.0.1\tlocalhost\n::1\tlocalhost";
    let manager = manager(content);
    assert!(manager.read_binding("test.com").is_none());
}

#[test]
fn test_read_binding_found_in_block() {
    let content =
        "127.0.0.1\tlocalhost\n# BEGIN anyFAST\n1.2.3.4\ttest.com\t# anyFAST\n# END anyFAST";
    let manager = manager(content);
    let ip = manager.read_binding("test.com");
    assert_eq!(ip, Some("1.2.3.4".to_string()));
}

#[test]
fn test_read_binding_legacy_format() {
    let content = "127.0.0.1\tlocalhost\n1.2.3.4\ttest.com\t# anyFAST";
    let manager = manager(content);
    let ip = manager.read_binding("test.com");
    assert_eq!(ip, Some("1.2.3.4".to_string()));
}

#[test]
fn test_write_binding_new_entry() {
    let mut manager = manager("127.0.0.1\tlocalhost");
    manager.write_binding("test.com", "1.2.3.4").unwrap();
    let result = manager.content().to_string();
    assert!(result.contains("1.2.3.4\ttest.com"));
    assert!(result.contains("localhost"));
    assert!(result.contains("# BEGIN anyFAST"));
    assert!(result.contains("# END anyFAST"));
    assert!(result.contains("# anyFAST"));
}

#[test]
fn test_write_binding_update_existing() {
    let content =
        "127.0.0.1\tlocalhost\n# BEGIN anyFAST\n1.1.1.1\ttest.com\t# anyFAST\n# END anyFAST";
    let mut manager = manager(content);
    manager.write_binding("test.com", "2.2.2.2").unwrap();
    let result = manager.content().to_string();
    assert!(result.contains("2.2.2.2\ttest.com"));
    assert!(!result.contains("1.1.1.1"));
}

#[test]
fn test_write_bindings_batch() {
    let mut manager = manager("127.0.0.1\tlocalhost");
    let bindings = vec![
        HostsBinding {
            domain: "test1.com".into(),
            ip: "1.1.1.1".into(),
        },
        HostsBinding {
            domain: "test2.com".into(),
            ip: "2.2.2.2".into(),
        },
    ];
    let count = manager.write_bindings_batch(&bindings).unwrap();
    assert_eq!(count, 2);
    let result = manager.content().to_string();
    assert!(result.contains("1.1.1.1\ttest1.com"));
    assert!(result.contains("2.2.2.2\ttest2.com"));
    assert!(result.contains("# BEGIN anyFAST"));
    assert!(result.contains("# END anyFAST"));
}

#[test]
fn test_write_bindings_batch_empty() {
    let mut manager = manager("127.0.0.1\tlocalhost");
    let count = manager.write_bindings_batch(&Vec::new()).unwrap();
    assert_eq!(count, 0);
}

#[test]
fn test_clear_binding() {
    let content =
        "127.0.0.1\tlocalhost\n# BEGIN anyFAST\n1.2.3.4\ttest.com\t# anyFAST\n# END anyFAST";
    let mut manager = manager(content);
    manager.clear_binding("test.com").unwrap();
    let result = manager.content().to_string();
    assert!(!result.contains("test.com"));
    assert!(result.contains("localhost"));
}

#[test]
fn test_clear_bindings_batch() {
    let content = "127.0.0.1\tlocalhost\n# BEGIN anyFAST\n1.1.1.1\ttest1.com\t# anyFAST\n2.2.2.2\ttest2.com\t# anyFAST\n# END anyFAST";
    let mut manager = manager(content);
    let domains = vec!["test1.com".to_string(), "test2.com".to_string()];
    let count = manager.clear_bindings_batch(&domains).unwrap();
    assert_eq!(count, 2);
    let result = manager.content().to_string();
    assert!(!result.contains("test1.com"));
    assert!(!result.contains("test2.com"));
    assert!(result.contains("localhost"));
}

#[test]
fn test_clear_bindings_batch_empty() {
    let mut manager = manager("127.0.0.1\tlocalhost");
    let count = manager.clear_bindings_batch(&Vec::new()).unwrap();
    assert_eq!(count, 0);
}

#[test]
fn test_bom_handling() {
    // Content decoded from a file that began with a UTF-8 byte-order mark.
    let content = "\u{feff}127.0.0.1\tlocalhost\n1.2.3.4\ttest.com";
    let mut manager = manager(content);

    let ip = manager.read_binding("test.com");
    assert_eq!(ip, Some("1.2.3.4".to_string()));

    manager.write_binding("test2.com", "5.6.7.8").unwrap();
    let ip2 = manager.read_binding("test2.com");
    assert_eq!(ip2, Some("5.6.7.8".to_string()));
}

#[test]
fn test_preserves_comments() {
    let content = "# This is a comment\n127.0.0.1\tlocalhost\n# Another comment";
    let mut manager = manager(content);
    manager.write_binding("test.com", "1.2.3.4").unwrap();
    let result = manager.content().to_string();
    assert!(result.contains("# This is a comment"));
    assert!(result.contains("# Another comment"));
}

#[test]
fn test_marker_block_format() {
    let mut manager = manager("127.0.0.1\tlocalhost");
    manager.write_binding("example.com", "1.2.3.4").unwrap();
    manager.write_binding("test.com", "5.6.7.8").unwrap();
    let result = manager.content().to_string();

    assert!(result.contains("# BEGIN anyFAST"));
    assert!(result.contains("# END anyFAST"));

    let begin_pos = result.find("# BEGIN anyFAST").unwrap();
    let end_pos = result.find("# END anyFAST").unwrap();
    let example_pos = result.find("example.com").unwrap();
    let test_pos = result.find("test.com").unwrap();

    assert!(begin_pos < example_pos);
    assert!(example_pos < test_pos);
    assert!(test_pos < end_pos);
}

#[test]
fn test_preserves_non_anyrouter_entries() {
    let content = "127.0.0.1\tlocalhost\n192.168.1.1\tmyserver.local";
    let mut manager = manager(content);
    manager.write_binding("test.com", "1.2.3.4").unwrap();
    let result = manager.content().to_string();
    assert!(result.contains("127.0.0.1\tlocalhost"));
    assert!(result.contains("192.168.1.1\tmyserver.local"));
}

#[test]
fn test_unclosed_block_preserves_content() {
    let content = "127.0.0.1\tlocalhost\n# BEGIN anyFAST\n1.2.3.4\ttest.com\t# anyFAST\n# User added comment\n192.168.1.1\tmyserver.local";
    let mut manager = manager(content);

    let ip = manager.read_binding("test.com");
    assert_eq!(ip, Some("1.2.3.4".to_string()));

    manager.write_binding("new.com", "5.6.7.8").unwrap();
    let result = manager.content().to_string();
    assert!(result.contains("127.0.0.1\tlocalhost"));
    assert!(result.contains("# User added comment"));
    assert!(result.contains("5.6.7.8\tnew.com"));
    assert!(result.contains("# END anyFAST"));
}

#[test]
fn empty_hosts_gets_exactly_one_block() {
    // Writing the first binding into empty content yields just the block.
    let mut manager = manager("");
    manager.write_binding("example.com", "1.2.3.4").unwrap();
    assert_eq!(
        manager.content(),
        "# BEGIN anyFAST\n1.2.3.4\texample.com\t# anyFAST\n# END anyFAST"
    );
}

#[test]
fn user_block_kept_before_sorted_batch() {
    // The pre-existing lines stay first; the batch lands in a bracketed
    // block with domains in ascending order, after a separating blank line.
    let mut manager = manager("127.0.0.1\tlocalhost\n192.168.1.10\tmyprinter");
    let bindings = vec![
        HostsBinding {
            domain: "b.test".into(),
            ip: "2.2.2.2".into(),
        },
        HostsBinding {
            domain: "a.test".into(),
            ip: "1.1.1.1".into(),
        },
    ];
    manager.write_bindings_batch(&bindings).unwrap();
    assert_eq!(
        manager.content(),
        "127.0.0.1\tlocalhost\n192.168.1.10\tmyprinter\n\n# BEGIN anyFAST\n1.1.1.1\ta.test\t# anyFAST\n2.2.2.2\tb.test\t# anyFAST\n# END anyFAST"
    );
}

#[test]
fn unclosed_block_reclosed_on_write() {
    // A block missing its end marker is rebuilt closed, and the stray
    // comment inside it survives after the block.
    let content = "# BEGIN anyFAST\n1.2.3.4\told.test\t# anyFAST\n# note";
    let mut manager = manager(content);
    manager.write_binding("new.test", "3.3.3.3").unwrap();
    let result = manager.content().to_string();
    let end = result.find("# END anyFAST").unwrap();
    let note = result.find("# note").unwrap();
    assert!(result.contains("1.2.3.4\told.test"));
    assert!(result.contains("3.3.3.3\tnew.test"));
    assert!(note > end);
}

#[test]
fn invalid_ip_is_rejected() {
    let mut manager = manager("127.0.0.1\tlocalhost");
    match manager.write_binding("test.com", "not-an-ip") {
        Err(HostsError::InvalidIp(s)) => assert_eq!(s, "not-an-ip"),
        _ => panic!("expected an invalid-ip error"),
    }
    assert_eq!(manager.content(), "127.0.0.1\tlocalhost");
}

#[test]
fn invalid_domain_is_rejected() {
    let mut manager = manager("127.0.0.1\tlocalhost");
    match manager.write_binding("bad domain", "1.2.3.4") {
        Err(HostsError::InvalidDomain(s)) => assert_eq!(s, "bad domain"),
        _ => panic!("expected an invalid-domain error"),
    }
    match manager.write_binding("", "1.2.3.4") {
        Err(HostsError::InvalidDomain(_)) => {}
        _ => panic!("expected an invalid-domain error"),
    }
    assert_eq!(manager.content(), "127.0.0.1\tlocalhost");
}

#[test]
fn ipv6_bindings_accepted() {
    let mut manager = manager("");
    manager.write_binding("six.test", "::1").unwrap();
    manager.write_binding("seven.test", "2001:db8::ff00:42:8329").unwrap();
    manager
        .write_binding("eight.test", "::ffff:192.168.1.1")
        .unwrap();
    assert_eq!(manager.read_binding("six.test"), Some("::1".to_string()));
    assert_eq!(
        manager.read_binding("seven.test"),
        Some("2001:db8::ff00:42:8329".to_string())
    );
}

#[test]
fn rewrite_is_idempotent() {
    // Parsing then rendering a well-formed file, twice, is byte-stable.
    let content = "127.0.0.1\tlocalhost\n\n# BEGIN anyFAST\n1.2.3.4\ta.test\t# anyFAST\n# END anyFAST\n# trailing note";
    let once = ParsedHosts::parse(content).render();
    let twice = ParsedHosts::parse(&once).render();
    assert_eq!(once, twice);
}

#[test]
fn clear_all_drops_whole_block() {
    let content = "127.0.0.1\tlocalhost\n\n# BEGIN anyFAST\n1.1.1.1\ta.test\t# anyFAST\n2.2.2.2\tb.test\t# anyFAST\n# END anyFAST";
    let mut manager = manager(content);
    let removed = manager.clear_all_anyfast_bindings().unwrap();
    assert_eq!(removed, 2);
    assert!(!manager.content().contains("# BEGIN anyFAST"));
    assert!(manager.content().contains("localhost"));
}
