use offload::framework::TestRecord;
use offload::history::record::{
    DurationEstimate, FailureRate, HistoryError, HistoryRecord, TestAttemptResult, TestValues,
    ZERO_DURATION,
};
use offload::history::store::{compute_percentiles, is_blank_line, JsonlHistoryStore};
use offload::orchestrator::scheduler::{DurationTable, Scheduler};
use std::time::Duration;

/// Key of a duration in seconds.
fn key(secs: f64) -> u64 {
    let bits = (secs + 0.0).to_bits();
    if bits >> 63 == 1 {
        !bits
    } else {
        bits ^ (1 << 63)
    }
}

/// Duration in seconds of a key.
fn secs(key: u64) -> f64 {
    if key >> 63 == 1 {
        f64::from_bits(key ^ (1 << 63))
    } else {
        f64::from_bits(!key)
    }
}

fn rate(r: FailureRate) -> f64 {
    if r.attempts == 0 {
        0.0
    } else {
        r.failures as f64 / r.attempts as f64
    }
}

fn duration(e: &DurationEstimate) -> Duration {
    Duration::from_secs_f64(match e {
        DurationEstimate::Weighted { ok, fail, rate: r } => {
            (1.0 - rate(*r)) * secs(*ok) + rate(*r) * secs(*fail)
        }
        DurationEstimate::Single(d) => secs(*d),
        DurationEstimate::Average(ds) => {
            ds.iter().map(|d| secs(*d)).sum::<f64>() / ds.len() as f64
        }
    })
}

fn table(entries: &[(String, DurationEstimate)]) -> DurationTable {
    let mut t = DurationTable::new();
    for (id, e) in entries {
        t.insert(id, duration(e).as_nanos() as u64);
    }
    t
}

fn attempt(config: &str, id: &str, run: &str, passed: bool, d: f64, at: u64) -> TestAttemptResult {
    TestAttemptResult {
        config: config.to_string(),
        test_id: id.to_string(),
        run_id: run.to_string(),
        passed,
        duration: key(d),
        timestamp_ms: at,
    }
}

fn record(store: &mut JsonlHistoryStore, results: &[TestAttemptResult]) {
    assert!(store.has_room(results));
    store.record_results(results, &[]).expect("results are recorded");
}

fn reload(store: &JsonlHistoryStore) -> JsonlHistoryStore {
    let lines = store.sorted_records().into_iter().map(Ok).collect();
    JsonlHistoryStore::load(store.path(), 20, key(1.0), lines).expect("lines are records")
}

#[test]
fn keys_order_durations() {
    assert_eq!(key(0.0), ZERO_DURATION);
    assert!(key(0.001) < key(1.0) && key(1.0) < key(1.5) && key(-1.0) < key(0.0));
    assert_eq!(secs(key(2.25)), 2.25);
}

#[test]
fn test_load_empty_file() {
    let store = JsonlHistoryStore::load("history.jsonl", 20, key(1.0), vec![]).unwrap();
    assert_eq!(store.len(), 0);
}

#[test]
fn test_record_and_save() {
    let mut store = JsonlHistoryStore::new("history.jsonl", 20, key(1.0));
    record(&mut store, &[attempt("test.toml", "test::foo", "abc", true, 1.5, 1000)]);

    // Reload and verify
    let store2 = reload(&store);
    let stats = store2.get_stats("test.toml", "test::foo").expect("expected stats to exist");
    assert_eq!(stats.total_attempts, 1);
    assert_eq!(stats.total_failures, 0);
}

#[test]
fn test_expected_duration_fallback() {
    let store = JsonlHistoryStore::new("history.jsonl", 20, key(2.5));

    // No history, should return default
    let estimate = store.expected_duration("config.toml", "unknown::test");
    assert_eq!(duration(&estimate), Duration::from_secs_f64(2.5));
}

#[test]
fn test_record_failure() {
    let mut store = JsonlHistoryStore::new("history.jsonl", 20, key(1.0));
    record(
        &mut store,
        &[
            attempt("test.toml", "test::bar", "run1", true, 1.0, 1000),
            attempt("test.toml", "test::bar", "run2", false, 2.0, 2000),
        ],
    );

    let stats = store.get_stats("test.toml", "test::bar").expect("expected stats to exist");
    assert_eq!(stats.total_attempts, 2);
    assert_eq!(stats.total_failures, 1);
    assert!((rate(stats.failure_rate) - 0.5).abs() < f64::EPSILON);
    assert_eq!(stats.last_run_id, "run2");
    assert_eq!(stats.last_attempt_ms, 2000);
}

#[test]
fn test_get_all_stats() {
    let mut store = JsonlHistoryStore::new("history.jsonl", 20, key(1.0));
    record(
        &mut store,
        &[
            attempt("config1.toml", "test::a", "run1", true, 1.0, 1000),
            attempt("config1.toml", "test::b", "run1", true, 2.0, 1001),
            attempt("config2.toml", "test::c", "run1", true, 3.0, 1002),
        ],
    );

    let stats1 = store.get_all_stats("config1.toml");
    assert_eq!(stats1.len(), 2);

    let stats2 = store.get_all_stats("config2.toml");
    assert_eq!(stats2.len(), 1);
}

#[test]
fn test_flakiest_tests() {
    let mut store = JsonlHistoryStore::new("history.jsonl", 20, key(1.0));

    // test::flaky: 2 failures / 4 attempts = 50%
    // test::stable: 0 failures / 4 attempts = 0%
    for i in 0..4u64 {
        record(
            &mut store,
            &[
                attempt(
                    "test.toml",
                    "test::flaky",
                    &format!("run{i}"),
                    i % 2 == 0, // fails on odd runs
                    1.0,
                    i * 1000,
                ),
                attempt("test.toml", "test::stable", &format!("run{i}"), true, 1.0, i * 1000 + 1),
            ],
        );
    }

    let flaky = store.flakiest_tests("test.toml", 10);
    assert_eq!(flaky.len(), 2);
    assert_eq!(flaky[0].test_id, "test::flaky");
    assert!((rate(flaky[0].failure_rate) - 0.5).abs() < f64::EPSILON);
    assert_eq!(store.flakiest_tests("test.toml", 1).len(), 1);
    assert_eq!(store.flakiest_tests("test.toml", 0).len(), 0);
}

#[test]
fn test_last_run_failures() {
    let mut store = JsonlHistoryStore::new("history.jsonl", 20, key(1.0));

    // First run: test::a passes, test::b fails
    record(
        &mut store,
        &[
            attempt("test.toml", "test::a", "run1", true, 1.0, 1000),
            attempt("test.toml", "test::b", "run1", false, 1.0, 1001),
        ],
    );

    // Second run: test::a fails, test::b passes
    record(
        &mut store,
        &[
            attempt("test.toml", "test::a", "run2", false, 1.0, 2000),
            attempt("test.toml", "test::b", "run2", true, 1.0, 2001),
        ],
    );

    let failures = store.last_run_failures("test.toml");
    assert_eq!(failures.len(), 1);
    assert_eq!(failures[0], "test::a");
    assert!(store.last_run_failures("other.toml").is_empty());
}

/// Records N samples for a test with sequential durations starting at `base_secs`.
fn record_samples(
    store: &mut JsonlHistoryStore,
    config: &str,
    test_id: &str,
    passed: bool,
    count: usize,
    base_secs: f64,
) {
    let kind = if passed { "ok" } else { "fail" };
    let step = if passed { 1000 } else { 2000 };
    let results: Vec<TestAttemptResult> = (0..count)
        .map(|i| {
            attempt(
                config,
                test_id,
                &format!("{test_id}-{kind}-{i}"),
                passed,
                base_secs + i as f64,
                (i as u64 + 1) * step,
            )
        })
        .collect();
    record(store, &results);
}

#[test]
fn test_get_scheduling_durations_populated_store() {
    let mut store = JsonlHistoryStore::new("history.jsonl", 20, key(1.0));

    // 5 ok samples for two tests under config1, and for one under config2
    record_samples(&mut store, "config1.toml", "test::alpha", true, 5, 1.0);
    record_samples(&mut store, "config1.toml", "test::beta", true, 5, 10.0);
    record_samples(&mut store, "config2.toml", "test::gamma", true, 5, 100.0);

    let durations = store.get_scheduling_durations("config1.toml");
    let get = |id: &str| durations.iter().find(|(t, _)| t == id).map(|(_, e)| duration(e));

    // Should contain exactly the two config1 tests
    assert_eq!(durations.len(), 2);
    assert!(get("test::gamma").is_none());

    let alpha_dur = get("test::alpha").unwrap();
    let beta_dur = get("test::beta").unwrap();
    assert!(alpha_dur > Duration::ZERO);
    assert!(beta_dur > Duration::ZERO);

    // test::alpha has sorted durations [1,2,3,4,5], P75 = sorted[3] = 4.0
    assert_eq!(alpha_dur, Duration::from_secs_f64(4.0));
    // test::beta has sorted durations [10,11,12,13,14], P75 = sorted[3] = 13.0
    assert_eq!(beta_dur, Duration::from_secs_f64(13.0));
}

#[test]
fn test_get_scheduling_durations_empty_store() {
    let store = JsonlHistoryStore::new("history.jsonl", 20, key(1.0));
    assert!(store.get_scheduling_durations("anything.toml").is_empty());

    let store2 = JsonlHistoryStore::load("history.jsonl", 20, key(1.0), vec![]).unwrap();
    assert!(store2.get_scheduling_durations("anything.toml").is_empty());
}

#[test]
fn test_expected_duration_weighted_p75() {
    let mut store = JsonlHistoryStore::new("history.jsonl", 20, key(99.0));

    // 5 ok samples: durations [1, 2, 3, 4, 5] -> P75 = sorted[3] = 4.0
    record_samples(&mut store, "cfg.toml", "test::mixed", true, 5, 1.0);
    // 5 fail samples: durations [10, 11, 12, 13, 14] -> P75 = sorted[3] = 13.0
    record_samples(&mut store, "cfg.toml", "test::mixed", false, 5, 10.0);

    let estimate = store.expected_duration("cfg.toml", "test::mixed");
    assert_eq!(
        estimate,
        DurationEstimate::Weighted {
            ok: key(4.0),
            fail: key(13.0),
            rate: FailureRate { failures: 5, attempts: 10 },
        }
    );
    // failure_rate = 5 / 10 = 0.5
    let expected = Duration::from_secs_f64(0.5 * 4.0 + 0.5 * 13.0);
    assert_eq!(duration(&estimate), expected);
}

#[test]
fn test_expected_duration_ok_only() {
    let mut store = JsonlHistoryStore::new("history.jsonl", 20, key(99.0));

    // 5 ok samples: durations [2, 3, 4, 5, 6] -> P75 = sorted[3] = 5.0
    record_samples(&mut store, "cfg.toml", "test::ok_only", true, 5, 2.0);
    // Only 3 fail samples (<5), so fail percentiles are None
    record_samples(&mut store, "cfg.toml", "test::ok_only", false, 3, 50.0);

    let estimate = store.expected_duration("cfg.toml", "test::ok_only");
    assert_eq!(duration(&estimate), Duration::from_secs_f64(5.0));
}

#[test]
fn a_test_that_always_fails_is_expected_to_take_as_long() {
    let mut store = JsonlHistoryStore::new("history.jsonl", 20, key(99.0));
    record_samples(&mut store, "cfg.toml", "test::broken", false, 5, 2.0);
    assert_eq!(
        store.expected_duration("cfg.toml", "test::broken"),
        DurationEstimate::Single(key(5.0))
    );
}

#[test]
fn test_expected_duration_group_average_fallback() {
    let mut store = JsonlHistoryStore::new("history.jsonl", 20, key(99.0));

    // test::fast: durations [1, 2, 3, 4, 5] -> P75 = 4.0
    record_samples(&mut store, "cfg.toml", "test::fast", true, 5, 1.0);
    // test::slow: durations [10, 11, 12, 13, 14] -> P75 = 13.0
    record_samples(&mut store, "cfg.toml", "test::slow", true, 5, 10.0);
    // test::sparse has only 2 ok samples (<5) and 0 fail -> both percentiles None
    record_samples(&mut store, "cfg.toml", "test::sparse", true, 2, 50.0);

    // Group average of tests with P75: (4.0 + 13.0) / 2 = 8.5
    let estimate = store.expected_duration("cfg.toml", "test::sparse");
    assert_eq!(duration(&estimate), Duration::from_secs_f64(8.5));
}

#[test]
fn test_expected_duration_fewer_than_5_samples() {
    let default_secs = 7.5;
    let mut store = JsonlHistoryStore::new("history.jsonl", 20, key(default_secs));

    // 3 ok samples (fewer than 5) for the only test in this config
    record_samples(&mut store, "solo.toml", "test::few", true, 3, 1.0);

    // No other tests in config -> falls to default
    let estimate = store.expected_duration("solo.toml", "test::few");
    assert_eq!(duration(&estimate), Duration::from_secs_f64(default_secs));
}

/// Drains all initial batches from a scheduler, returning each batch's test IDs.
fn drain_batch_ids(scheduler: &mut Scheduler) -> Vec<Vec<String>> {
    let n = scheduler.batch_count();
    let mut batches = Vec::with_capacity(n);
    for _ in 0..n {
        if let Some(batch) = scheduler.pop() {
            batches.push(batch.tests.iter().map(|t| t.id().to_string()).collect());
        }
    }
    batches
}

#[test]
fn test_history_durations_change_scheduler_batching() {
    let mut store = JsonlHistoryStore::new("history.jsonl", 20, key(1.0));

    // "test::slow" -> P75 = 13.0, "test::medium" -> 8.0, "test::fast" -> 4.0
    record_samples(&mut store, "test.toml", "test::slow", true, 5, 10.0);
    record_samples(&mut store, "test.toml", "test::medium", true, 5, 5.0);
    record_samples(&mut store, "test.toml", "test::fast", true, 5, 1.0);

    let durations = store.get_scheduling_durations("test.toml");
    assert_eq!(durations.len(), 3);

    let records = [
        TestRecord::new("test::slow", "group"),
        TestRecord::new("test::medium", "group"),
        TestRecord::new("test::fast", "group"),
    ];
    let tests: Vec<_> = records.iter().map(|r| r.test()).collect();

    // Scheduler WITH history durations (max_parallel=2)
    let mut with_history =
        Scheduler::new(2, &tests, &table(&durations), &DurationTable::new(), true);
    let batches_with = drain_batch_ids(&mut with_history);

    // Scheduler WITHOUT history (all tests use 1s default)
    let mut without_history =
        Scheduler::new(2, &tests, &DurationTable::new(), &DurationTable::new(), true);
    let batches_without = drain_batch_ids(&mut without_history);

    // Batch 0 (heaviest): [test::slow] = 13s
    // Batch 1: [test::medium, test::fast] = 12s
    assert_eq!(batches_with.len(), 2);
    assert_eq!(batches_with[0].len(), 1);
    assert!(batches_with[0].contains(&"test::slow".to_string()));
    assert_eq!(batches_with[1].len(), 2);

    let sizes_with: Vec<usize> = batches_with.iter().map(|b| b.len()).collect();
    let sizes_without: Vec<usize> = batches_without.iter().map(|b| b.len()).collect();
    assert_eq!(sizes_with, vec![1, 2]);
    assert_eq!(sizes_without, vec![2, 1]);
}

#[test]
fn test_partial_history_uses_defaults_for_unknown_tests() {
    let mut store = JsonlHistoryStore::new("history.jsonl", 20, key(1.0));

    // "test::known_slow" -> P75 = 23.0, "test::known_fast" -> 4.0
    record_samples(&mut store, "test.toml", "test::known_slow", true, 5, 20.0);
    record_samples(&mut store, "test.toml", "test::known_fast", true, 5, 1.0);

    let durations = store.get_scheduling_durations("test.toml");
    assert_eq!(durations.len(), 2);
    let listed = |id: &str| durations.iter().any(|(t, _)| t == id);
    assert!(listed("test::known_slow"));
    assert!(listed("test::known_fast"));
    assert!(!listed("test::unknown_a"));
    assert!(!listed("test::unknown_b"));

    let records = [
        TestRecord::new("test::known_slow", "group"),
        TestRecord::new("test::known_fast", "group"),
        TestRecord::new("test::unknown_a", "group"),
        TestRecord::new("test::unknown_b", "group"),
    ];
    let tests: Vec<_> = records.iter().map(|r| r.test()).collect();

    // known_slow=23s, known_fast=4s, unknown_a=1s default, unknown_b=1s default
    let mut scheduler =
        Scheduler::new(2, &tests, &table(&durations), &DurationTable::new(), true);
    let batches = drain_batch_ids(&mut scheduler);

    assert_eq!(batches.len(), 2);
    assert_eq!(batches[0].len(), 1);
    assert!(batches[0].contains(&"test::known_slow".to_string()));
    assert_eq!(batches[1].len(), 3);
}

#[test]
fn test_empty_store_produces_empty_durations() {
    let store = JsonlHistoryStore::load("does_not_exist.jsonl", 20, key(1.0), vec![]).unwrap();
    let durations = store.get_scheduling_durations("any.toml");
    assert!(durations.is_empty());

    let records = [
        TestRecord::new("test::a", "group"),
        TestRecord::new("test::b", "group"),
        TestRecord::new("test::c", "group"),
    ];
    let tests: Vec<_> = records.iter().map(|r| r.test()).collect();

    let mut scheduler =
        Scheduler::new(2, &tests, &table(&durations), &DurationTable::new(), true);
    assert_eq!(scheduler.batch_count(), 2);

    let batches = drain_batch_ids(&mut scheduler);
    let total: usize = batches.iter().map(|b| b.len()).sum();
    assert_eq!(total, 3);
}

#[test]
fn a_full_reservoir_drops_the_smallest_draw() {
    let mut store = JsonlHistoryStore::new("history.jsonl", 3, key(1.0));
    let results: Vec<_> =
        (0..4u64).map(|i| attempt("c", "t", &format!("r{i}"), true, i as f64, i)).collect();
    // The fourth result meets three samples; the second has the smallest draw.
    let draws = vec![vec![], vec![], vec![], vec![9, 2, 7, 5]];
    store.record_results(&results, &draws).unwrap();
    let records = store.sorted_records();
    let runs: Vec<&str> = records[0].values.ok.iter().map(|s| s.run_id.as_str()).collect();
    assert_eq!(runs, vec!["r0", "r2", "r3"]);
    assert_eq!(records[0].values.total_attempts, 4);
    assert_eq!(store.reservoir_size(), 3);
}

#[test]
fn samples_stay_within_the_reservoir() {
    let mut store = JsonlHistoryStore::new("history.jsonl", 2, key(1.0));
    for i in 0..10u64 {
        record(&mut store, &[attempt("c", "t", &format!("r{i}"), i % 2 == 0, 1.0, i)]);
    }
    let records = store.sorted_records();
    assert_eq!(records.len(), 1);
    assert_eq!(records[0].values.ok.len(), 2);
    assert_eq!(records[0].values.fail.len(), 2);
    assert_eq!(records[0].values.total_attempts, 10);
    assert_eq!(records[0].values.total_failures, 5);

    let mut none = JsonlHistoryStore::new("history.jsonl", 0, key(1.0));
    record(&mut none, &[attempt("c", "t", "r", true, 1.0, 1)]);
    assert!(none.sorted_records()[0].values.ok.is_empty());
}

#[test]
fn records_are_saved_in_key_order() {
    let mut store = JsonlHistoryStore::new("history.jsonl", 5, key(1.0));
    record(
        &mut store,
        &[
            attempt("b", "x", "r", true, 1.0, 1),
            attempt("a", "z", "r", true, 1.0, 1),
            attempt("a", "y", "r", true, 1.0, 1),
            attempt("a", "yy", "r", true, 1.0, 1),
        ],
    );
    let keys: Vec<(String, String)> =
        store.sorted_records().into_iter().map(|r| r.key).collect();
    let text = |c: &str, t: &str| (c.to_string(), t.to_string());
    assert_eq!(keys, vec![text("a", "y"), text("a", "yy"), text("a", "z"), text("b", "x")]);
    let again = reload(&store);
    assert_eq!(again.len(), 4);
    assert_eq!(again.path(), "history.jsonl");
}

fn row(config: &str, id: &str, attempts: u64) -> HistoryRecord {
    HistoryRecord {
        key: (config.to_string(), id.to_string()),
        values: TestValues {
            total_attempts: attempts,
            total_failures: 0,
            last_run: String::new(),
            ok: vec![],
            fail: vec![],
        },
    }
}

#[test]
fn the_last_line_for_a_key_counts() {
    let lines = vec![Ok(row("c", "t", 1)), Ok(row("c", "u", 2)), Ok(row("c", "t", 3))];
    let store = JsonlHistoryStore::load("h", 5, key(1.0), lines).unwrap();
    assert_eq!(store.len(), 2);
    assert_eq!(store.get_stats("c", "t").unwrap().total_attempts, 3);
    assert_eq!(store.get_stats("c", "t").unwrap().last_attempt_ms, 0);
    assert!(store.get_stats("c", "v").is_none());
}

#[test]
fn the_first_bad_line_is_an_error() {
    let bad = |m: &str| Err(HistoryError::Format(m.to_string()));
    let lines = vec![Ok(row("c", "t", 1)), bad("one"), bad("two")];
    let error = JsonlHistoryStore::load("h", 5, key(1.0), lines).err();
    assert_eq!(error, Some(HistoryError::Format("one".to_string())));
    let unread = vec![Err(HistoryError::Io("gone".to_string()))];
    let error = JsonlHistoryStore::load("h", 5, key(1.0), unread).err();
    assert_eq!(error, Some(HistoryError::Io("gone".to_string())));
}

#[test]
fn blank_lines_hold_no_record() {
    assert!(is_blank_line(""));
    assert!(is_blank_line(" \t\r\u{2003}"));
    assert!(!is_blank_line(" {} "));
}

#[test]
fn percentiles_need_five_samples() {
    let mut store = JsonlHistoryStore::new("h", 20, key(1.0));
    record_samples(&mut store, "c", "t", true, 4, 1.0);
    assert_eq!(compute_percentiles(&store.sorted_records()[0].values.ok), None);
    record_samples(&mut store, "c", "t", true, 7, 5.0);
    // Durations 1 to 11: ranks 5, 7.5, 9 and 9.5 of 10, halves rounded up.
    let stats = compute_percentiles(&store.sorted_records()[0].values.ok).unwrap();
    assert_eq!(stats.p50, key(6.0));
    assert_eq!(stats.p75, key(9.0));
    assert_eq!(stats.p90, key(10.0));
    assert_eq!(stats.p95, key(11.0));
}

#[test]
fn slowest_tests_are_listed_by_median() {
    let mut store = JsonlHistoryStore::new("h", 20, key(1.0));
    record_samples(&mut store, "c", "quick", true, 5, 1.0);
    record_samples(&mut store, "c", "sparse", true, 2, 100.0);
    record_samples(&mut store, "c", "slow", true, 5, 50.0);
    let ids: Vec<String> =
        store.slowest_tests("c", 2).into_iter().map(|s| s.test_id).collect();
    assert_eq!(ids, vec!["slow".to_string(), "quick".to_string()]);
    assert_eq!(store.slowest_tests("c", 9).len(), 3);
    assert_eq!(store.slowest_tests("c", 9)[2].clone().test_id, "sparse");
}

#[test]
fn counters_that_are_full_have_no_room() {
    let lines = vec![Ok(row("c", "t", u64::MAX - 1))];
    let store = JsonlHistoryStore::load("h", 5, key(1.0), lines).unwrap();
    let once = attempt("c", "t", "r", true, 1.0, 0);
    let again = attempt("c", "t", "r", true, 1.0, 1);
    let other = attempt("c", "u", "r", true, 1.0, 2);
    assert!(store.has_room(&[]));
    assert!(!store.has_room(&[once, again]));
    let once = attempt("c", "t", "r", true, 1.0, 0);
    assert!(store.has_room(&[once, other]));
}

#[test]
fn only_tests_with_results_change() {
    let mut store = JsonlHistoryStore::new("h", 2, key(1.0));
    record(&mut store, &[attempt("c", "t", "r1", true, 1.0, 1)]);
    record(
        &mut store,
        &[
            attempt("c", "u", "r2", true, 1.0, 2),
            attempt("c", "u", "r3", false, 1.0, 3),
            attempt("d", "t", "r4", false, 1.0, 4),
        ],
    );
    let kept = store.get_stats("c", "t").unwrap();
    assert_eq!((kept.total_attempts, kept.total_failures), (1, 0));
    assert_eq!(kept.last_run_id, "r1");
    let changed = store.get_stats("c", "u").unwrap();
    assert_eq!((changed.total_attempts, changed.total_failures), (2, 1));
    assert_eq!(changed.last_run_id, "r3");
    let rows = store.sorted_records();
    assert_eq!(rows[1].key, ("c".to_string(), "u".to_string()));
    assert_eq!((rows[1].values.ok.len(), rows[1].values.fail.len()), (1, 1));
    assert_eq!(rows[1].values.ok[0].run_id, "r2");
    assert_eq!(rows[1].values.fail[0].run_id, "r3");
}

#[test]
fn reservoirs_tell_how_many_draws_are_needed() {
    let results: Vec<TestAttemptResult> =
        (0..4).map(|i| attempt("c", "t", "r", true, 1.0, i)).collect();
    let small = JsonlHistoryStore::new("h", 3, key(1.0));
    assert_eq!(small.largest_reservoir(&results), 3);
    let large = JsonlHistoryStore::new("h", usize::MAX, key(1.0));
    assert_eq!(large.largest_reservoir(&results), 4);
    let mut filled = JsonlHistoryStore::new("h", 3, key(1.0));
    record(&mut filled, &results);
    let lines = filled.sorted_records().into_iter().map(Ok).collect();
    let narrow = JsonlHistoryStore::load("h", 1, key(1.0), lines).unwrap();
    assert_eq!(narrow.largest_reservoir(&results), 3);
    assert_eq!(narrow.largest_reservoir(&[]), 3);
}
