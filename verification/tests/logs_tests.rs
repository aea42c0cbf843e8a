use fileforge::logs::{classify_line, log_line, ExtractScan, LogLevel, LogStats};
use fileforge::context::{ContextOptions, ContextScan};

#[test]
fn generated_lines() {
    assert_eq!(log_line(0), "2026-07-01 12:00:00 ERROR User=0 Message number 0");
    assert_eq!(log_line(1), "2026-07-01 12:00:01 WARN User=1 Message number 1");
    assert_eq!(log_line(3723), "2026-07-01 12:02:03 INFO User=723 Message number 3723");
    assert_eq!(log_line(3600), "2026-07-01 12:00:00 ERROR User=600 Message number 3600");
}

#[test]
fn stats_of_generated_log() {
    let mut stats = LogStats::new();
    for i in 0..25u64 {
        stats.record(&log_line(i));
    }
    assert_eq!(stats.total, 25);
    assert_eq!(stats.error, 3);
    assert_eq!(stats.warn, 3);
    assert_eq!(stats.info, 19);
    assert_eq!(stats.other, 0);
}

#[test]
fn classify_priority() {
    assert_eq!(classify_line("WARN then ERROR"), LogLevel::Error);
    assert_eq!(classify_line("INFO WARN"), LogLevel::Warn);
    assert_eq!(classify_line("INFO"), LogLevel::Info);
    assert_eq!(classify_line("info"), LogLevel::Other);
}

#[test]
fn extract_with_limit() {
    let mut x = ExtractScan::new("key", 2);
    assert!(!x.feed("none"));
    assert!(x.feed("a key"));
    assert!(!x.is_done());
    assert!(x.feed("key b"));
    assert!(x.is_done());
    assert_eq!(x.count(), 2);
    let mut all = ExtractScan::new("k", 0);
    for _ in 0..5 {
        assert!(all.feed("k"));
    }
    assert!(!all.is_done());
}

#[test]
fn context_window() {
    let options = ContextOptions {
        path: "f".to_string(),
        keyword: "HIT".to_string(),
        before: 2,
        after: 1,
        limit: 0,
    };
    let mut c = ContextScan::new(&options);
    assert!(c.feed("a").is_empty());
    assert!(c.feed("b").is_empty());
    assert!(c.feed("c").is_empty());
    assert_eq!(c.feed("HIT 1"), vec!["----- match 1 -----", "2- b", "3- c", "4> HIT 1"]);
    assert_eq!(c.feed("d"), vec!["5+ d"]);
    assert!(c.feed("e").is_empty());
    assert_eq!(c.feed("HIT 2"), vec!["----- match 2 -----", "5- d", "6- e", "7> HIT 2"]);
    assert_eq!(c.count(), 2);
}

#[test]
fn context_limit_and_no_before() {
    let options = ContextOptions {
        path: "f".to_string(),
        keyword: "x".to_string(),
        before: 0,
        after: 0,
        limit: 1,
    };
    let mut c = ContextScan::new(&options);
    assert!(c.feed("a").is_empty());
    assert_eq!(c.feed("x"), vec!["----- match 1 -----", "2> x"]);
    assert!(c.is_done());
}
