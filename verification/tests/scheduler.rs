use offload::framework::{TestInstance, TestRecord};
use offload::orchestrator::scheduler::{
    DurationTable, ScheduledBatch, Scheduler, MAX_BATCH_COMMAND_LEN, MAX_SINGLE_TEST_REQUEUES,
};
use std::collections::HashSet;

fn secs(n: u64) -> u64 {
    n * 1_000_000_000
}

fn table(entries: &[(&str, u64)]) -> DurationTable {
    let mut t = DurationTable::new();
    for (name, n) in entries {
        t.insert(name, secs(*n));
    }
    t
}

fn instances(records: &[TestRecord]) -> Vec<TestInstance> {
    records.iter().map(|r| r.test()).collect()
}

/// Pops exactly `scheduler.batch_count()` batches.
fn drain_batches(scheduler: &mut Scheduler) -> Vec<Vec<TestInstance>> {
    let n = scheduler.batch_count();
    let mut batches = Vec::with_capacity(n);
    for _ in 0..n {
        if let Some(batch) = scheduler.pop() {
            batches.push(batch.tests);
        }
    }
    batches
}

#[test]
fn test_schedule_empty() {
    let scheduler = Scheduler::new(4, &[], &DurationTable::new(), &DurationTable::new(), true);
    assert_eq!(scheduler.batch_count(), 0);
}

#[test]
fn test_schedule_balances_load() {
    let tests = instances(&[
        TestRecord::new("slow_test", "test-group"),
        TestRecord::new("medium_test", "test-group"),
        TestRecord::new("fast_test", "test-group"),
    ]);
    let durations = table(&[("slow_test", 10), ("medium_test", 5), ("fast_test", 1)]);
    let mut scheduler = Scheduler::new(2, &tests, &durations, &DurationTable::new(), true);
    let batches = drain_batches(&mut scheduler);

    assert_eq!(batches.len(), 2);
    // Heaviest batch first
    assert_eq!(batches[0].len(), 1);
    assert_eq!(batches[0][0].id(), "slow_test");
    // Second batch has medium and fast
    assert_eq!(batches[1].len(), 2);
}

#[test]
fn test_schedule_heaviest_batch_first() {
    let tests = instances(&[
        TestRecord::new("test_a", "test-group"),
        TestRecord::new("test_b", "test-group"),
        TestRecord::new("test_c", "test-group"),
    ]);
    let durations = table(&[("test_a", 1), ("test_b", 5), ("test_c", 3)]);
    let mut scheduler = Scheduler::new(3, &tests, &durations, &DurationTable::new(), true);
    let batches = drain_batches(&mut scheduler);

    assert_eq!(batches.len(), 3);
    assert_eq!(batches[0][0].id(), "test_b"); // Heaviest first
    assert_eq!(batches[1][0].id(), "test_c");
    assert_eq!(batches[2][0].id(), "test_a");
}

#[test]
fn test_schedule_uses_default_for_unknown() {
    let tests = instances(&[
        TestRecord::new("known_slow", "test-group"),
        TestRecord::new("unknown_test", "test-group"),
    ]);
    let durations = table(&[("known_slow", 10)]);
    let mut scheduler = Scheduler::new(2, &tests, &durations, &DurationTable::new(), true);
    let batches = drain_batches(&mut scheduler);

    assert_eq!(batches.len(), 2);
    // known_slow (10s) should be in heaviest batch
    assert_eq!(batches[0][0].id(), "known_slow");
    assert_eq!(batches[1][0].id(), "unknown_test");
}

fn assert_no_duplicates(batches: &[Vec<TestInstance>]) {
    for batch in batches {
        let ids: Vec<_> = batch.iter().map(|t| t.id()).collect();
        let unique: HashSet<_> = ids.iter().collect();
        assert_eq!(ids.len(), unique.len(), "Batch contains duplicate test IDs");
    }
}

#[test]
fn test_schedule_duplicate_prevention() {
    // Retry scenario: same test appears multiple times
    let tests = instances(&[
        TestRecord::new("test_a", "test-group"),
        TestRecord::new("test_a", "test-group"), // retry 1
        TestRecord::new("test_a", "test-group"), // retry 2
    ]);
    let durations = table(&[("test_a", 5)]);
    let mut scheduler = Scheduler::new(3, &tests, &durations, &DurationTable::new(), true);
    let batches = drain_batches(&mut scheduler);

    // Each instance of test_a must be in a different batch
    assert_eq!(batches.len(), 3);
    assert_eq!(batches[0].len(), 1);
    assert_eq!(batches[1].len(), 1);
    assert_eq!(batches[2].len(), 1);
    assert_no_duplicates(&batches);
}

#[test]
fn test_schedule_mixed_duplicates_and_unique() {
    // Mix of retried and unique tests
    let tests = instances(&[
        TestRecord::new("test_a", "test-group"),
        TestRecord::new("test_a", "test-group"), // retry
        TestRecord::new("test_b", "test-group"),
        TestRecord::new("test_c", "test-group"),
    ]);
    let durations = table(&[("test_a", 10), ("test_b", 5), ("test_c", 1)]);
    let mut scheduler = Scheduler::new(3, &tests, &durations, &DurationTable::new(), true);
    let batches = drain_batches(&mut scheduler);

    assert_no_duplicates(&batches);

    // Both instances of test_a should exist across batches
    let all_ids: Vec<_> = batches.iter().flat_map(|b| b.iter().map(|t| t.id())).collect();
    assert_eq!(all_ids.iter().filter(|&&id| id == "test_a").count(), 2);
}

#[test]
fn test_schedule_creates_extra_batches_for_retries() {
    // 2 workers but 3 instances of same test: 3 batches (one per instance)
    let tests = instances(&[
        TestRecord::new("test_a", "test-group"),
        TestRecord::new("test_a", "test-group"),
        TestRecord::new("test_a", "test-group"),
    ]);
    let mut scheduler =
        Scheduler::new(2, &tests, &DurationTable::new(), &DurationTable::new(), true);
    let batches = drain_batches(&mut scheduler);

    // Each instance must be in a separate batch
    assert_eq!(batches.len(), 3);
    for batch in &batches {
        assert_eq!(batch.len(), 1);
        assert_eq!(batch[0].id(), "test_a");
    }
}

#[test]
fn test_schedule_splits_on_command_length() {
    // Tests whose IDs together exceed MAX_BATCH_COMMAND_LEN
    let long_name = "a".repeat(MAX_BATCH_COMMAND_LEN / 2 + 1);
    let tests = instances(&[
        TestRecord::new(&format!("{long_name}_1"), "test-group"),
        TestRecord::new(&format!("{long_name}_2"), "test-group"),
    ]);
    let mut scheduler =
        Scheduler::new(1, &tests, &DurationTable::new(), &DurationTable::new(), true);
    let batches = drain_batches(&mut scheduler);

    // Two tests that each use >half the command length budget must be in separate batches
    assert_eq!(batches.len(), 2);
    assert_eq!(batches[0].len(), 1);
    assert_eq!(batches[1].len(), 1);
}

#[test]
fn test_schedule_groups_short_commands() {
    // Many tests with short IDs that fit in one batch
    let records: Vec<_> =
        (0..100).map(|i| TestRecord::new(&format!("t{i}"), "test-group")).collect();
    let tests = instances(&records);
    let mut scheduler =
        Scheduler::new(1, &tests, &DurationTable::new(), &DurationTable::new(), true);
    let batches = drain_batches(&mut scheduler);

    // Total command length is ~400 chars, well under 30k: 1 batch
    assert_eq!(batches.len(), 1);
    assert_eq!(batches[0].len(), 100);
}

#[test]
fn test_schedule_individual_tests_get_own_batch() {
    let mut records = [
        TestRecord::new("fast_1", "fast-group"),
        TestRecord::new("fast_2", "fast-group"),
        TestRecord::new("slow_1", "slow-group"),
        TestRecord::new("slow_2", "slow-group"),
    ];
    records[2].schedule_individual = true;
    records[3].schedule_individual = true;

    let tests = instances(&records);
    let mut scheduler =
        Scheduler::new(2, &tests, &DurationTable::new(), &DurationTable::new(), true);
    let batches = drain_batches(&mut scheduler);

    // Each individually-scheduled test must be alone in its batch
    for batch in &batches {
        let has_individual = batch.iter().any(|t| t.schedule_individual());
        if has_individual {
            assert_eq!(batch.len(), 1, "Individually-scheduled test must be alone in its batch");
        }
    }
    // All 4 tests should be scheduled
    let total: usize = batches.iter().map(|b| b.len()).sum();
    assert_eq!(total, 4);
}

#[test]
fn test_schedule_individual_tests_preserves_interleaved_order() {
    let mut records = vec![
        TestRecord::new("slow_a", "slow-group"),
        TestRecord::new("slow_b", "slow-group"),
        TestRecord::new("slow_a", "slow-group"),
        TestRecord::new("slow_b", "slow-group"),
        TestRecord::new("slow_a", "slow-group"),
    ];
    for r in &mut records {
        r.schedule_individual = true;
    }

    let tests = instances(&records);
    let mut scheduler =
        Scheduler::new(4, &tests, &DurationTable::new(), &DurationTable::new(), true);
    let batches = drain_batches(&mut scheduler);

    // Each individually-scheduled test in its own batch, order preserved
    let ids: Vec<&str> = batches
        .iter()
        .map(|b| {
            assert_eq!(b.len(), 1);
            b[0].id()
        })
        .collect();
    assert_eq!(ids, vec!["slow_a", "slow_b", "slow_a", "slow_b", "slow_a"]);
}

#[test]
fn test_schedule_individual_tests_at_front() {
    let mut records = [
        TestRecord::new("fast_1", "fast-group"),
        TestRecord::new("slow_1", "slow-group"),
        TestRecord::new("fast_2", "fast-group"),
    ];
    records[1].schedule_individual = true;

    let tests = instances(&records);
    let mut scheduler =
        Scheduler::new(4, &tests, &DurationTable::new(), &DurationTable::new(), true);
    let batches = drain_batches(&mut scheduler);

    // Individually-scheduled batches come first
    assert!(
        batches[0].iter().any(|t| t.schedule_individual()),
        "First batch should contain individually-scheduled test"
    );
    assert_eq!(batches[0].len(), 1);

    // Total tests scheduled
    let total: usize = batches.iter().map(|b| b.len()).sum();
    assert_eq!(total, 3);
}

fn pop(scheduler: &mut Scheduler) -> ScheduledBatch {
    scheduler.pop().expect("expected a batch")
}

#[test]
fn test_pop_requeues_batch() {
    // Multi-test batch: should split into two halves
    let tests = instances(&[
        TestRecord::new("test_a", "test-group"),
        TestRecord::new("test_b", "test-group"),
    ]);
    let mut scheduler =
        Scheduler::new(1, &tests, &DurationTable::new(), &DurationTable::new(), true);
    assert_eq!(scheduler.batch_count(), 1);

    // Pop the 2-test batch itself
    let batch = pop(&mut scheduler);
    assert_eq!(batch.tests.len(), 2);
    assert_eq!(batch.single_test_retry_counter, 0);

    // First re-queued half: [test_a], counter starts at 0
    let first_half = pop(&mut scheduler);
    assert_eq!(first_half.tests.len(), 1);
    assert_eq!(first_half.tests[0].id(), "test_a");
    assert_eq!(first_half.single_test_retry_counter, 0);

    // Second re-queued half: [test_b], counter starts at 0
    let second_half = pop(&mut scheduler);
    assert_eq!(second_half.tests.len(), 1);
    assert_eq!(second_half.tests[0].id(), "test_b");
    assert_eq!(second_half.single_test_retry_counter, 0);
}

#[test]
fn test_pop_requeues_single_test_batch_as_clone() {
    // Single-test batch: should clone with incrementing counter
    let tests = instances(&[TestRecord::new("only_test", "test-group")]);
    let mut scheduler =
        Scheduler::new(1, &tests, &DurationTable::new(), &DurationTable::new(), true);
    assert_eq!(scheduler.batch_count(), 1);

    // Pop the single-test batch itself (counter = 0)
    let batch = pop(&mut scheduler);
    assert_eq!(batch.tests.len(), 1);
    assert_eq!(batch.tests[0].id(), "only_test");
    assert_eq!(batch.single_test_retry_counter, 0);

    // Re-queued batch should have counter incremented to 1
    let requeued = pop(&mut scheduler);
    assert_eq!(requeued.tests.len(), 1);
    assert_eq!(requeued.tests[0].id(), "only_test");
    assert_eq!(requeued.single_test_retry_counter, 1);
}

#[test]
fn test_pop_stops_requeuing_single_test_after_max() {
    let tests = instances(&[TestRecord::new("only_test", "test-group")]);
    let mut scheduler =
        Scheduler::new(1, &tests, &DurationTable::new(), &DurationTable::new(), true);

    // The initial batch has counter=0, each re-queue increments by 1.
    for i in 0..=MAX_SINGLE_TEST_REQUEUES {
        let batch = pop(&mut scheduler);
        assert_eq!(batch.tests.len(), 1);
        assert_eq!(batch.single_test_retry_counter, i);
    }

    // Queue should now be empty
    assert!(scheduler.pop().is_none(), "expected empty queue after max requeues");
}

#[test]
fn test_pop_does_not_requeue_when_flag_disabled() {
    // Multi-test batch with flag=false: no halves re-queued
    let tests = instances(&[
        TestRecord::new("test_a", "test-group"),
        TestRecord::new("test_b", "test-group"),
    ]);
    let mut scheduler =
        Scheduler::new(1, &tests, &DurationTable::new(), &DurationTable::new(), false);
    assert_eq!(scheduler.batch_count(), 1);

    // Pop yields the batch as-is
    let batch = pop(&mut scheduler);
    assert_eq!(batch.tests.len(), 2);

    // Queue must be empty, no halves were enqueued
    assert!(scheduler.pop().is_none(), "expected empty queue when flag is false");

    // Single-test batch with flag=false: no retry enqueued
    let tests = instances(&[TestRecord::new("only_test", "test-group")]);
    let mut scheduler =
        Scheduler::new(1, &tests, &DurationTable::new(), &DurationTable::new(), false);
    assert_eq!(scheduler.batch_count(), 1);

    let batch = pop(&mut scheduler);
    assert_eq!(batch.tests.len(), 1);
    assert_eq!(batch.tests[0].id(), "only_test");

    // Queue must be empty, no retry enqueued
    assert!(scheduler.pop().is_none(), "expected empty queue for singleton when flag is false");
}

#[test]
fn group_defaults_stand_in_for_missing_durations() {
    let tests = instances(&[
        TestRecord::new("known", "slow"),
        TestRecord::new("a", "slow"),
        TestRecord::new("b", "quick"),
    ]);
    let durations = table(&[("known", 5)]);
    let groups = table(&[("slow", 20)]);
    let mut scheduler = Scheduler::new(3, &tests, &durations, &groups, false);
    assert_eq!(scheduler.batch_sizes(), &[1, 1, 1]);
    let batches = drain_batches(&mut scheduler);
    assert_eq!(batches[0][0].id(), "a");
    assert_eq!(batches[1][0].id(), "known");
    assert_eq!(batches[2][0].id(), "b");
}

#[test]
fn zero_sandboxes_count_as_one() {
    let tests = instances(&[TestRecord::new("a", "g"), TestRecord::new("b", "g")]);
    let scheduler =
        Scheduler::new(0, &tests, &DurationTable::new(), &DurationTable::new(), false);
    assert_eq!(scheduler.batch_count(), 1);
    assert_eq!(scheduler.batch_sizes(), &[2]);
}

#[test]
fn a_test_longer_than_a_command_runs_alone() {
    let long = "x".repeat(MAX_BATCH_COMMAND_LEN + 1);
    let tests = instances(&[TestRecord::new(&long, "g"), TestRecord::new("b", "g")]);
    let mut scheduler =
        Scheduler::new(1, &tests, &DurationTable::new(), &DurationTable::new(), false);
    let batches = drain_batches(&mut scheduler);
    assert_eq!(batches.len(), 2);
    assert_eq!(batches[0].len(), 1);
    assert_eq!(batches[1].len(), 1);
}

#[test]
fn command_length_counts_characters() {
    // Each id has half of the characters that fit, and twice as many bytes.
    let half = "\u{e9}".repeat(MAX_BATCH_COMMAND_LEN / 2 - 1);
    let tests = instances(&[
        TestRecord::new(&format!("{half}1"), "g"),
        TestRecord::new(&format!("{half}2"), "g"),
    ]);
    let scheduler =
        Scheduler::new(1, &tests, &DurationTable::new(), &DurationTable::new(), false);
    assert_eq!(scheduler.batch_sizes(), &[2]);
}

#[test]
fn an_impatient_queue_runs_dry() {
    // 3 tests: the batch, halves of 1 and 2, the 2 again as 1 and 1, and each
    // single test four times.
    let tests = instances(&[
        TestRecord::new("a", "g"),
        TestRecord::new("b", "g"),
        TestRecord::new("c", "g"),
    ]);
    let mut scheduler =
        Scheduler::new(1, &tests, &DurationTable::new(), &DurationTable::new(), true);
    let mut pops = 0;
    while let Some(batch) = scheduler.pop() {
        assert!(!batch.clone().tests.is_empty());
        pops += 1;
        assert!(pops < 100);
    }
    assert_eq!(pops, 2 + 3 * 4);
}

#[test]
fn loads_stay_close_to_an_even_share() {
    let records: Vec<_> = (0..9).map(|i| TestRecord::new(&format!("t{i}"), "g")).collect();
    let tests = instances(&records);
    let mut durations = DurationTable::new();
    for i in 0..9 {
        durations.insert(&format!("t{i}"), secs(i + 1));
    }
    assert_eq!(durations.get("t4"), Some(secs(5)));
    assert_eq!(durations.get("t9"), None);
    let mut scheduler = Scheduler::new(3, &tests, &durations, &DurationTable::new(), false);
    let batches = drain_batches(&mut scheduler);
    let loads: Vec<u64> = batches
        .iter()
        .map(|b| b.iter().map(|t| durations.get(t.id()).unwrap()).sum())
        .collect();
    assert_eq!(loads.len(), 3);
    assert_eq!(loads.iter().sum::<u64>(), secs(45));
    assert!(loads.windows(2).all(|w| w[0] >= w[1]));
    assert!(loads[0] <= secs(15 + 9));
}

#[test]
fn tests_of_equal_duration_keep_their_order() {
    let tests = instances(&[
        TestRecord::new("z", "g"),
        TestRecord::new("m", "g"),
        TestRecord::new("a", "g"),
    ]);
    let mut scheduler =
        Scheduler::new(1, &tests, &DurationTable::new(), &DurationTable::new(), false);
    let ids: Vec<String> =
        pop(&mut scheduler).tests.iter().map(|t| t.id().to_string()).collect();
    assert_eq!(ids, vec!["z", "m", "a"]);
}

#[test]
fn without_history_tests_go_round_the_batches() {
    let tests = instances(&[
        TestRecord::new("a", "g"),
        TestRecord::new("b", "g"),
        TestRecord::new("c", "g"),
        TestRecord::new("d", "g"),
        TestRecord::new("e", "g"),
    ]);
    let none = DurationTable::new();
    let mut scheduler = Scheduler::new(2, &tests, &none, &none, false);
    let batches: Vec<Vec<String>> = drain_batches(&mut scheduler)
        .iter()
        .map(|b| b.iter().map(|t| t.id().to_string()).collect())
        .collect();
    assert_eq!(batches, vec![vec!["a", "c", "e"], vec!["b", "d"]]);
}
