//! The counts of each model.

use kiro_rs::model_stats::{should_save, ModelStatEntry, ModelStats};

const TODAY: &str = "2026-01-02";

#[test]
fn test_record_and_snapshot() {
    let mut stats = ModelStats::new();
    stats.record("opus-4-8", 100, 50, TODAY);
    stats.record("opus-4-8", 200, 30, TODAY);
    stats.record("sonnet-4-6", 10, 5, TODAY);

    let snap = stats.snapshot(TODAY);
    // opus 调用 2 次应排在前
    assert_eq!(snap[0].model, "opus-4-8");
    assert_eq!(snap[0].requests, 2);
    assert_eq!(snap[0].input_tokens, 300);
    assert_eq!(snap[0].output_tokens, 80);
    assert_eq!(snap[0].total_tokens, 380);
    // 刚记录的都算今日
    assert_eq!(snap[0].today_requests, 2);
    assert_eq!(snap[0].today_total_tokens, 380);
    assert_eq!(snap[1].model, "sonnet-4-6");
    assert_eq!(snap[1].requests, 1);
    assert_eq!(snap[1].today_requests, 1);
}

#[test]
fn test_stale_day_zeroes_today() {
    let mut stats = ModelStats::new();
    stats.record("m", 100, 50, TODAY);
    // 手动把记录日期改成昨天，模拟跨天
    stats.entries[0].1.day = "2000-01-01".to_string();
    let snap = stats.snapshot(TODAY);
    // 累计保留，今日归零
    assert_eq!(snap[0].requests, 1);
    assert_eq!(snap[0].total_tokens, 150);
    assert_eq!(snap[0].today_requests, 0);
    assert_eq!(snap[0].today_total_tokens, 0);
}

#[test]
fn test_negative_tokens_clamped() {
    let mut stats = ModelStats::new();
    stats.record("m", -5, -3, TODAY);
    let snap = stats.snapshot(TODAY);
    assert_eq!(snap[0].input_tokens, 0);
    assert_eq!(snap[0].output_tokens, 0);
    assert_eq!(snap[0].requests, 1);
}

#[test]
fn test_empty_model_ignored() {
    let mut stats = ModelStats::new();
    stats.record("  ", 10, 10, TODAY);
    assert!(stats.snapshot(TODAY).is_empty());
}

#[test]
fn a_new_day_starts_anew() {
    let mut stats = ModelStats::new();
    assert_eq!(stats.record(" m ", 1, 2, "2026-01-01"), Some(true));
    assert_eq!(stats.record("m", 1, 2, "2026-01-01"), Some(false));
    assert_eq!(stats.record("m", 5, 6, TODAY), Some(true));
    let snap = stats.snapshot(TODAY);
    assert_eq!(snap.len(), 1);
    assert_eq!(snap[0].requests, 3);
    assert_eq!(snap[0].total_tokens, 17);
    assert_eq!(snap[0].today_requests, 1);
    assert_eq!(snap[0].today_total_tokens, 11);
}

#[test]
fn a_list_of_all_that_was_recorded() {
    let records = [
        (" b ", 3, -4, "2026-01-01"),
        ("a", 10, 20, "2026-01-01"),
        ("  ", 99, 99, TODAY),
        ("b", -1, 2, TODAY),
        ("c", 5, 5, TODAY),
        ("b\n", 7, 1, TODAY),
        ("a", 1, 0, "2026-01-01"),
    ];
    let mut stats = ModelStats::new();
    for (model, input, output, day) in records {
        stats.record(model, input, output, day);
    }
    let snap = stats.snapshot(TODAY);
    let names: Vec<&str> = snap.iter().map(|s| s.model.as_str()).collect();
    assert_eq!(names, ["b", "a", "c"]);
    for s in &snap {
        let all = records.iter().filter(|r| r.0.trim() == s.model);
        let now = all.clone().filter(|r| r.3 == TODAY);
        let input: i64 = all.clone().map(|r| r.1.max(0)).sum();
        let output: i64 = all.clone().map(|r| r.2.max(0)).sum();
        let today: i64 = now.clone().map(|r| r.1.max(0) + r.2.max(0)).sum();
        assert_eq!(s.requests, all.count() as u64);
        assert_eq!(s.today_requests, now.count() as u64);
        assert_eq!((s.input_tokens, s.output_tokens), (input as u64, output as u64));
        assert_eq!(s.total_tokens, (input + output) as u64);
        assert_eq!(s.today_total_tokens, today as u64);
    }
    assert_eq!((snap[0].requests, snap[0].total_tokens), (3, 13));

    // On a later day nothing is of today.
    for s in stats.snapshot("2030-01-01") {
        assert_eq!((s.today_requests, s.today_total_tokens), (0, 0));
    }
}

#[test]
fn equal_counts_are_listed_by_name() {
    let mut stats = ModelStats::new();
    stats.record("b", 0, 0, TODAY);
    stats.record("ab", 0, 0, TODAY);
    stats.record("a", 0, 0, TODAY);
    let names: Vec<String> = stats.snapshot(TODAY).into_iter().map(|s| s.model).collect();
    assert_eq!(names, ["a", "ab", "b"]);
}

#[test]
fn counts_that_are_full_take_no_more() {
    let mut stats = ModelStats::new();
    stats.record("m", i64::MAX, 0, TODAY);
    stats.record("m", i64::MAX, 0, TODAY);
    assert!(stats.can_record("m", 1, 0, TODAY));
    assert!(!stats.can_record("m", 2, 0, TODAY));
    assert!(stats.can_record("n", i64::MAX, i64::MAX, TODAY));
    assert!(stats.can_record(" ", 2, 0, TODAY));
    stats.put_entry(
        "o".to_string(),
        ModelStatEntry {
            today_requests: u64::MAX,
            day: "2026-01-01".to_string(),
            ..ModelStatEntry::new()
        },
    );
    assert!(!stats.can_record("o", 0, 0, "2026-01-01"));
    assert!(stats.can_record("o", 0, 0, TODAY));
}

#[test]
fn counts_are_saved_now_and_then() {
    assert!(should_save(None));
    assert!(!should_save(Some(29)));
    assert!(should_save(Some(30)));
}
