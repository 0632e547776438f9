//! What holds of every history store.

use crate::history::record::{
    AttemptView, DurationStats, EstimateView, RecordView, SampleView, StatsView,
};
use crate::history::reservoir;
use crate::history::store;
use crate::ranking;
use crate::text;
use vstd::prelude::*;
use vstd::seq_lib::*;

verus! {

/// The record for a test under a configuration, where there is one.
pub open spec fn lookup(
    rows: Seq<RecordView>,
    config: Seq<char>,
    test_id: Seq<char>,
) -> Option<RecordView> {
    let i = store::position(rows, config, test_id);
    if i < rows.len() {
        Some(rows[i])
    } else {
        None
    }
}

/// Where keys are unique, a record is found by its key.
pub proof fn unique_records_are_found(rows: Seq<RecordView>, i: int)
    requires
        store::unique_keys(rows),
        0 <= i < rows.len(),
    ensures
        store::position(rows, rows[i].config, rows[i].test_id) == i,
{
    store::lemma_position(rows, rows[i].config, rows[i].test_id);
    let k = store::position(rows, rows[i].config, rows[i].test_id);
    if k < i {
        assert(store::is_for(rows[k], rows[i].config, rows[i].test_id));
        assert(!store::is_for(rows[i], rows[k].config, rows[k].test_id));
    }
    if k > i {
        assert(!store::is_for(rows[i], rows[i].config, rows[i].test_id));
    }
}

/// Storing a record leaves one record per test and configuration.
pub proof fn storing_keeps_keys_unique(rows: Seq<RecordView>, r: RecordView)
    requires
        store::unique_keys(rows),
    ensures
        store::unique_keys(store::stored(rows, r)),
{
    let k = store::position(rows, r.config, r.test_id);
    store::lemma_position(rows, r.config, r.test_id);
    let now = store::stored(rows, r);
    assert forall|i: int, j: int| 0 <= i < j < now.len() implies !store::is_for(
        #[trigger] now[j],
        (#[trigger] now[i]).config,
        now[i].test_id,
    ) by {
        if j < rows.len() {
            assert(!store::is_for(rows[j], rows[i].config, rows[i].test_id));
        } else {
            assert(!store::is_for(rows[i], r.config, r.test_id));
        }
    }
}

proof fn lemma_recorded_is_stored(
    rows: Seq<RecordView>,
    a: AttemptView,
    draws: Seq<u64>,
    capacity: nat,
)
    ensures
        ({
            let base = match lookup(rows, a.config, a.test_id) {
                Some(r) => r,
                None => store::blank_record(a.config, a.test_id),
            };
            let next = store::updated(base, a, draws, capacity);
            &&& store::is_for(next, a.config, a.test_id)
            &&& store::recorded(rows, a, draws, capacity) == store::stored(rows, next)
        }),
{
    store::lemma_position(rows, a.config, a.test_id);
}

/// Recording results leaves one record per test and configuration.
pub proof fn recording_keeps_keys_unique(
    rows: Seq<RecordView>,
    attempts: Seq<AttemptView>,
    draws: Seq<Seq<u64>>,
    capacity: nat,
)
    requires
        store::unique_keys(rows),
    ensures
        store::unique_keys(store::all_recorded(rows, attempts, draws, capacity)),
    decreases attempts.len(),
{
    if attempts.len() > 0 {
        recording_keeps_keys_unique(rows, attempts.drop_last(), draws, capacity);
        let before = store::all_recorded(rows, attempts.drop_last(), draws, capacity);
        let a = attempts.last();
        let d = store::draws_for(draws, attempts.len() - 1);
        lemma_recorded_is_stored(before, a, d, capacity);
        let base = match lookup(before, a.config, a.test_id) {
            Some(r) => r,
            None => store::blank_record(a.config, a.test_id),
        };
        storing_keeps_keys_unique(before, store::updated(base, a, d, capacity));
    }
}

/// Loading leaves one record per test and configuration.
pub proof fn loading_keeps_keys_unique(rows: Seq<RecordView>, more: Seq<RecordView>)
    requires
        store::unique_keys(rows),
    ensures
        store::unique_keys(store::all_stored(rows, more)),
    decreases more.len(),
{
    if more.len() > 0 {
        loading_keeps_keys_unique(rows, more.drop_last());
        storing_keeps_keys_unique(store::all_stored(rows, more.drop_last()), more.last());
    }
}

/// What a stored record leaves as it was, and what it sets.
pub proof fn storing_sets_one_record(
    rows: Seq<RecordView>,
    r: RecordView,
    config: Seq<char>,
    test_id: Seq<char>,
)
    ensures
        lookup(store::stored(rows, r), config, test_id) == if store::is_for(r, config, test_id) {
            Some(r)
        } else {
            lookup(rows, config, test_id)
        },
{
    let now = store::stored(rows, r);
    let at = store::position(rows, r.config, r.test_id);
    let k = store::position(rows, config, test_id);
    let m = store::position(now, config, test_id);
    store::lemma_position(rows, r.config, r.test_id);
    store::lemma_position(rows, config, test_id);
    store::lemma_position(now, config, test_id);
    if store::is_for(r, config, test_id) {
        assert(k == at);
        assert(store::is_for(now[at], config, test_id));
        if m < at {
            assert(now[m] == rows[m]);
        }
        if m > at {
            assert(!store::is_for(now[at], config, test_id));
        }
    } else {
        if k < rows.len() {
            assert(k != at);
            assert(now[k] == rows[k]);
            if m < k {
                if m != at {
                    assert(now[m] == rows[m]);
                }
            }
            if m > k {
                assert(!store::is_for(now[k], config, test_id));
            }
        } else {
            if m < now.len() {
                if m != at {
                    assert(now[m] == rows[m]);
                    assert(!store::is_for(rows[m], config, test_id));
                }
            }
        }
    }
}

/// Number of attempts on record for a test.
pub open spec fn attempts_of(rows: Seq<RecordView>, config: Seq<char>, test_id: Seq<char>) -> nat {
    match lookup(rows, config, test_id) {
        Some(r) => r.attempts,
        None => 0,
    }
}

/// Number of failures on record for a test.
pub open spec fn failures_of(rows: Seq<RecordView>, config: Seq<char>, test_id: Seq<char>) -> nat {
    match lookup(rows, config, test_id) {
        Some(r) => r.failures,
        None => 0,
    }
}

/// The counters of a test grow by the number of its results and of its
/// failed results.
pub proof fn recording_counts_every_result(
    rows: Seq<RecordView>,
    attempts: Seq<AttemptView>,
    draws: Seq<Seq<u64>>,
    capacity: nat,
    config: Seq<char>,
    test_id: Seq<char>,
)
    ensures
        ({
            let now = store::all_recorded(rows, attempts, draws, capacity);
            &&& attempts_of(now, config, test_id) == attempts_of(rows, config, test_id)
                + store::results_for(attempts, config, test_id)
            &&& failures_of(now, config, test_id) == failures_of(rows, config, test_id)
                + store::failed_results_for(attempts, config, test_id)
        }),
    decreases attempts.len(),
{
    if attempts.len() > 0 {
        let front = attempts.drop_last();
        recording_counts_every_result(rows, front, draws, capacity, config, test_id);
        let before = store::all_recorded(rows, front, draws, capacity);
        let a = attempts.last();
        let d = store::draws_for(draws, attempts.len() - 1);
        lemma_recorded_is_stored(before, a, d, capacity);
        let base = match lookup(before, a.config, a.test_id) {
            Some(r) => r,
            None => store::blank_record(a.config, a.test_id),
        };
        storing_sets_one_record(
            before,
            store::updated(base, a, d, capacity),
            config,
            test_id,
        );
    }
}

/// A test with a result has a record, and with it statistics.
pub proof fn a_recorded_test_has_statistics(
    rows: Seq<RecordView>,
    attempts: Seq<AttemptView>,
    draws: Seq<Seq<u64>>,
    capacity: nat,
    config: Seq<char>,
    test_id: Seq<char>,
)
    ensures
        lookup(store::all_recorded(rows, attempts, draws, capacity), config, test_id) is Some <==> (
        lookup(rows, config, test_id) is Some || store::results_for(attempts, config, test_id) > 0),
    decreases attempts.len(),
{
    if attempts.len() > 0 {
        let front = attempts.drop_last();
        a_recorded_test_has_statistics(rows, front, draws, capacity, config, test_id);
        let before = store::all_recorded(rows, front, draws, capacity);
        let a = attempts.last();
        let d = store::draws_for(draws, attempts.len() - 1);
        lemma_recorded_is_stored(before, a, d, capacity);
        let base = match lookup(before, a.config, a.test_id) {
            Some(r) => r,
            None => store::blank_record(a.config, a.test_id),
        };
        storing_sets_one_record(
            before,
            store::updated(base, a, d, capacity),
            config,
            test_id,
        );
    }
}

/// Recording leaves the records of tests without a result as they were.
pub proof fn recording_leaves_other_tests_unchanged(
    rows: Seq<RecordView>,
    attempts: Seq<AttemptView>,
    draws: Seq<Seq<u64>>,
    capacity: nat,
    config: Seq<char>,
    test_id: Seq<char>,
)
    requires
        store::results_for(attempts, config, test_id) == 0,
    ensures
        lookup(store::all_recorded(rows, attempts, draws, capacity), config, test_id) == lookup(
            rows,
            config,
            test_id,
        ),
    decreases attempts.len(),
{
    if attempts.len() > 0 {
        let front = attempts.drop_last();
        recording_leaves_other_tests_unchanged(rows, front, draws, capacity, config, test_id);
        lemma_recording_sets_one_record(
            store::all_recorded(rows, front, draws, capacity),
            attempts.last(),
            store::draws_for(draws, attempts.len() - 1),
            capacity,
            config,
            test_id,
        );
    }
}

/// What one more result does to the record of a test.
proof fn lemma_recording_sets_one_record(
    rows: Seq<RecordView>,
    a: AttemptView,
    draws: Seq<u64>,
    capacity: nat,
    config: Seq<char>,
    test_id: Seq<char>,
)
    ensures
        lookup(store::recorded(rows, a, draws, capacity), config, test_id) == if a.config == config
            && a.test_id == test_id {
            let base = match lookup(rows, config, test_id) {
                Some(r) => r,
                None => store::blank_record(config, test_id),
            };
            Some(store::updated(base, a, draws, capacity))
        } else {
            lookup(rows, config, test_id)
        },
{
    lemma_recorded_is_stored(rows, a, draws, capacity);
    let base = match lookup(rows, a.config, a.test_id) {
        Some(r) => r,
        None => store::blank_record(a.config, a.test_id),
    };
    storing_sets_one_record(rows, store::updated(base, a, draws, capacity), config, test_id);
}

/// Results of a test.
pub open spec fn for_test(config: Seq<char>, test_id: Seq<char>) -> spec_fn(AttemptView) -> bool {
    |a: AttemptView| a.config == config && a.test_id == test_id
}

/// Results that failed.
pub open spec fn failed() -> spec_fn(AttemptView) -> bool {
    |a: AttemptView| !a.passed
}

/// Whether a sample is that of a result with this outcome.
pub open spec fn is_sample_of(own: Seq<AttemptView>, s: SampleView, passed: bool) -> bool {
    exists|j: int| 0 <= j < own.len() && (#[trigger] own[j]).passed == passed && own[j].sample == s
}

/// Whether a record is what the results of its test make of it: it counts all
/// of them and those that failed, it names the last run, and its samples are
/// at most `capacity` of the results that passed and at most as many of those
/// that failed.
pub open spec fn follows_from(r: RecordView, own: Seq<AttemptView>, capacity: nat) -> bool {
    &&& r.attempts == own.len()
    &&& r.failures == own.filter(failed()).len()
    &&& own.len() > 0
    &&& r.last_run == own.last().sample.run_id
    &&& r.ok.len() <= capacity
    &&& r.fail.len() <= capacity
    &&& forall|k: int| 0 <= k < r.ok.len() ==> is_sample_of(own, #[trigger] r.ok[k], true)
    &&& forall|k: int| 0 <= k < r.fail.len() ==> is_sample_of(own, #[trigger] r.fail[k], false)
}

/// Whether the records say of a test what its results make of it: nothing
/// without results.
pub open spec fn tells_of(
    rows: Seq<RecordView>,
    results: Seq<AttemptView>,
    capacity: nat,
    config: Seq<char>,
    test_id: Seq<char>,
) -> bool {
    let own = results.filter(for_test(config, test_id));
    match lookup(rows, config, test_id) {
        None => own.len() == 0,
        Some(r) => follows_from(r, own, capacity),
    }
}

proof fn lemma_samples_of_more(own: Seq<AttemptView>, a: AttemptView, s: SampleView, passed: bool)
    requires
        is_sample_of(own, s, passed),
    ensures
        is_sample_of(own.push(a), s, passed),
{
    let j = choose|j: int|
        0 <= j < own.len() && (#[trigger] own[j]).passed == passed && own[j].sample == s;
    assert(own.push(a)[j] == own[j]);
}

proof fn lemma_resampled_from(
    own: Seq<AttemptView>,
    a: AttemptView,
    samples: Seq<SampleView>,
    draws: Seq<u64>,
    capacity: nat,
)
    requires
        forall|k: int|
            0 <= k < samples.len() ==> is_sample_of(own, #[trigger] samples[k], a.passed),
    ensures
        ({
            let kept = reservoir::resampled(samples, a.sample, draws, capacity);
            forall|k: int|
                0 <= k < kept.len() ==> is_sample_of(own.push(a), #[trigger] kept[k], a.passed)
        }),
{
    let kept = reservoir::resampled(samples, a.sample, draws, capacity);
    assert forall|k: int| 0 <= k < kept.len() implies is_sample_of(
        own.push(a),
        #[trigger] kept[k],
        a.passed,
    ) by {
        reservoir::reservoir_holds_only_what_was_offered(samples, a.sample, draws, capacity, k);
        let all = samples.push(a.sample);
        let m = choose|m: int| 0 <= m < all.len() && all[m] == kept[k];
        if m < samples.len() {
            assert(samples[m] == kept[k]);
            lemma_samples_of_more(own, a, kept[k], a.passed);
        } else {
            assert(own.push(a)[own.len() as int] == a);
        }
    }
}

proof fn lemma_update_follows(
    base: RecordView,
    own: Seq<AttemptView>,
    a: AttemptView,
    draws: Seq<u64>,
    capacity: nat,
)
    requires
        follows_from(base, own, capacity) || (own.len() == 0 && base == store::blank_record(
            a.config,
            a.test_id,
        )),
    ensures
        follows_from(store::updated(base, a, draws, capacity), own.push(a), capacity),
{
    if own.len() == 0 {
        reveal(Seq::filter);
        assert(own =~= Seq::<AttemptView>::empty());
    }
    ranking::lemma_filter_push(own, a, failed());
    reservoir::reservoir_is_bounded(base.ok, a.sample, draws, capacity);
    reservoir::reservoir_is_bounded(base.fail, a.sample, draws, capacity);
    let now = store::updated(base, a, draws, capacity);
    if a.passed {
        lemma_resampled_from(own, a, base.ok, draws, capacity);
        assert forall|k: int| 0 <= k < now.fail.len() implies is_sample_of(
            own.push(a),
            #[trigger] now.fail[k],
            false,
        ) by {
            lemma_samples_of_more(own, a, base.fail[k], false);
        }
    } else {
        lemma_resampled_from(own, a, base.fail, draws, capacity);
        assert forall|k: int| 0 <= k < now.ok.len() implies is_sample_of(
            own.push(a),
            #[trigger] now.ok[k],
            true,
        ) by {
            lemma_samples_of_more(own, a, base.ok[k], true);
        }
    }
}

proof fn lemma_recording_tells(
    rows: Seq<RecordView>,
    past: Seq<AttemptView>,
    attempts: Seq<AttemptView>,
    draws: Seq<Seq<u64>>,
    capacity: nat,
    config: Seq<char>,
    test_id: Seq<char>,
)
    requires
        tells_of(rows, past, capacity, config, test_id),
    ensures
        tells_of(
            store::all_recorded(rows, attempts, draws, capacity),
            past + attempts,
            capacity,
            config,
            test_id,
        ),
    decreases attempts.len(),
{
    if attempts.len() == 0 {
        assert(past + attempts =~= past);
    } else {
        let front = attempts.drop_last();
        let a = attempts.last();
        let d = store::draws_for(draws, attempts.len() - 1);
        let before = store::all_recorded(rows, front, draws, capacity);
        let p = for_test(config, test_id);
        lemma_recording_tells(rows, past, front, draws, capacity, config, test_id);
        lemma_recording_sets_one_record(before, a, d, capacity, config, test_id);
        assert(past + attempts =~= (past + front).push(a));
        ranking::lemma_filter_push(past + front, a, p);
        if p(a) {
            let base = match lookup(before, config, test_id) {
                Some(r) => r,
                None => store::blank_record(config, test_id),
            };
            lemma_update_follows(base, (past + front).filter(p), a, d, capacity);
        }
    }
}

/// Results and draws of one call after another.
pub type Calls = Seq<(Seq<AttemptView>, Seq<Seq<u64>>)>;

/// The records of a store that was created empty, after the calls.
pub open spec fn after_calls(calls: Calls, capacity: nat) -> Seq<RecordView>
    decreases calls.len(),
{
    if calls.len() == 0 {
        seq![]
    } else {
        store::all_recorded(
            after_calls(calls.drop_last(), capacity),
            calls.last().0,
            calls.last().1,
            capacity,
        )
    }
}

/// The results of all calls, in order.
pub open spec fn results_of(calls: Calls) -> Seq<AttemptView>
    decreases calls.len(),
{
    if calls.len() == 0 {
        seq![]
    } else {
        results_of(calls.drop_last()) + calls.last().0
    }
}

/// However results were recorded, there is a record exactly of the tests with
/// results; it counts all of them, also those of which no sample is kept, and
/// those that failed, and names the run of the last; and it keeps at most
/// `capacity` samples of each outcome, each of a result with that outcome.
pub proof fn records_follow_from_all_results(
    calls: Calls,
    capacity: nat,
    config: Seq<char>,
    test_id: Seq<char>,
)
    ensures
        tells_of(
            after_calls(calls, capacity),
            results_of(calls),
            capacity,
            config,
            test_id,
        ),
    decreases calls.len(),
{
    if calls.len() == 0 {
        reveal(Seq::filter);
        assert(results_of(calls).filter(for_test(config, test_id)) =~= seq![]);
    } else {
        let front = calls.drop_last();
        records_follow_from_all_results(front, capacity, config, test_id);
        lemma_recording_tells(
            after_calls(front, capacity),
            results_of(front),
            calls.last().0,
            calls.last().1,
            capacity,
            config,
            test_id,
        );
    }
}

/// Statistics are those of all results of a test: the number of attempts and
/// of failures, the share of failures, which is at most one, and the last run;
/// and there are none exactly of tests without results.
pub proof fn statistics_follow_from_all_results(
    calls: Calls,
    capacity: nat,
    config: Seq<char>,
    test_id: Seq<char>,
)
    requires
        results_of(calls).len() <= u64::MAX,
    ensures
        ({
            let own = results_of(calls).filter(for_test(config, test_id));
            let failures = own.filter(failed()).len();
            match lookup(after_calls(calls, capacity), config, test_id) {
                None => own.len() == 0,
                Some(r) => {
                    let stats = store::stats_of(r);
                    &&& own.len() > 0
                    &&& stats.config == config
                    &&& stats.test_id == test_id
                    &&& stats.attempts == own.len()
                    &&& stats.failures == failures
                    &&& stats.failure_rate.attempts == own.len()
                    &&& stats.failure_rate.failures == failures
                    &&& failures <= own.len()
                    &&& stats.last_run_id == own.last().sample.run_id
                },
            }
        }),
{
    records_follow_from_all_results(calls, capacity, config, test_id);
    store::lemma_position(after_calls(calls, capacity), config, test_id);
    let all = results_of(calls);
    all.lemma_filter_len(for_test(config, test_id));
    all.filter(for_test(config, test_id)).lemma_filter_len(failed());
}

/// Whether no record holds more samples of an outcome than `capacity`.
pub open spec fn bounded(rows: Seq<RecordView>, capacity: nat) -> bool {
    forall|i: int|
        0 <= i < rows.len() ==> (#[trigger] rows[i]).ok.len() <= capacity && rows[i].fail.len()
            <= capacity
}

/// However many results are recorded, the samples stay within the reservoir
/// size.
pub proof fn recording_keeps_samples_bounded(
    rows: Seq<RecordView>,
    attempts: Seq<AttemptView>,
    draws: Seq<Seq<u64>>,
    capacity: nat,
)
    requires
        bounded(rows, capacity),
    ensures
        bounded(store::all_recorded(rows, attempts, draws, capacity), capacity),
    decreases attempts.len(),
{
    if attempts.len() > 0 {
        let front = attempts.drop_last();
        recording_keeps_samples_bounded(rows, front, draws, capacity);
        let before = store::all_recorded(rows, front, draws, capacity);
        let a = attempts.last();
        let d = store::draws_for(draws, attempts.len() - 1);
        let now = store::recorded(before, a, d, capacity);
        let k = store::position(before, a.config, a.test_id);
        store::lemma_position(before, a.config, a.test_id);
        let base = if k < before.len() {
            before[k]
        } else {
            store::blank_record(a.config, a.test_id)
        };
        reservoir::reservoir_is_bounded(base.ok, a.sample, d, capacity);
        reservoir::reservoir_is_bounded(base.fail, a.sample, d, capacity);
        assert(base.ok.len() <= capacity && base.fail.len() <= capacity);
        assert forall|i: int| 0 <= i < now.len() implies (#[trigger] now[i]).ok.len() <= capacity
            && now[i].fail.len() <= capacity by {
            if i != k {
                assert(now[i] == before[i]);
            }
        }
    }
}

proof fn lemma_storing_unique_rows(rows: Seq<RecordView>)
    requires
        store::unique_keys(rows),
    ensures
        store::all_stored(seq![], rows) == rows,
    decreases rows.len(),
{
    if rows.len() > 0 {
        let front = rows.drop_last();
        let r = rows.last();
        assert forall|i: int, j: int| 0 <= i < j < front.len() implies !store::is_for(
            #[trigger] front[j],
            (#[trigger] front[i]).config,
            front[i].test_id,
        ) by {
            assert(!store::is_for(rows[j], rows[i].config, rows[i].test_id));
        }
        lemma_storing_unique_rows(front);
        store::lemma_position(front, r.config, r.test_id);
        let k = store::position(front, r.config, r.test_id);
        if k < front.len() {
            assert(!store::is_for(rows[rows.len() - 1], rows[k].config, rows[k].test_id));
        }
        assert(front.push(r) =~= rows);
    }
}

proof fn lemma_ranked_keeps_unique(rows: Seq<RecordView>)
    requires
        store::unique_keys(rows),
    ensures
        store::unique_keys(ranking::ranked(rows, store::by_key())),
    decreases rows.len(),
{
    if rows.len() > 0 {
        let front = rows.drop_last();
        let r = rows.last();
        assert forall|i: int, j: int| 0 <= i < j < front.len() implies !store::is_for(
            #[trigger] front[j],
            (#[trigger] front[i]).config,
            front[i].test_id,
        ) by {
            assert(!store::is_for(rows[j], rows[i].config, rows[i].test_id));
        }
        lemma_ranked_keeps_unique(front);
        let sorted = ranking::ranked(front, store::by_key());
        assert forall|i: int| 0 <= i < sorted.len() implies !store::is_for(
            #[trigger] sorted[i],
            r.config,
            r.test_id,
        ) by {
            assert(sorted.contains(sorted[i]));
            ranking::ranked_elements(front, store::by_key(), sorted[i]);
            let k = choose|k: int| 0 <= k < front.len() && front[k] == sorted[i];
            assert(!store::is_for(rows[rows.len() - 1], rows[k].config, rows[k].test_id));
        }
        lemma_inserted_keeps_unique(sorted, r);
    }
}

proof fn lemma_inserted_keeps_unique(rows: Seq<RecordView>, r: RecordView)
    requires
        store::unique_keys(rows),
        forall|i: int|
            0 <= i < rows.len() ==> !store::is_for(#[trigger] rows[i], r.config, r.test_id),
    ensures
        store::unique_keys(ranking::inserted(rows, r, store::by_key())),
        forall|i: int|
            0 <= i < ranking::inserted(rows, r, store::by_key()).len() ==> {
                ||| (#[trigger] ranking::inserted(rows, r, store::by_key())[i]) == r
                ||| rows.contains(ranking::inserted(rows, r, store::by_key())[i])
            },
    decreases rows.len(),
{
    let lt = store::by_key();
    let now = ranking::inserted(rows, r, lt);
    if rows.len() > 0 && lt(r, rows.last()) {
        let front = rows.drop_last();
        let last = rows.last();
        assert forall|i: int, j: int| 0 <= i < j < front.len() implies !store::is_for(
            #[trigger] front[j],
            (#[trigger] front[i]).config,
            front[i].test_id,
        ) by {
            assert(!store::is_for(rows[j], rows[i].config, rows[i].test_id));
        }
        assert forall|i: int| 0 <= i < front.len() implies !store::is_for(
            #[trigger] front[i],
            r.config,
            r.test_id,
        ) by {
            assert(front[i] == rows[i]);
        }
        lemma_inserted_keeps_unique(front, r);
        let u = ranking::inserted(front, r, lt);
        assert forall|i: int| 0 <= i < now.len() implies (#[trigger] now[i]) == r
            || rows.contains(now[i]) by {
            if i < u.len() {
                assert(now[i] == u[i]);
                if u[i] != r {
                    let k = choose|k: int| 0 <= k < front.len() && front[k] == u[i];
                    assert(rows[k] == u[i]);
                }
            } else {
                assert(rows[rows.len() - 1] == now[i]);
            }
        }
        assert forall|i: int, j: int| 0 <= i < j < now.len() implies !store::is_for(
            #[trigger] now[j],
            (#[trigger] now[i]).config,
            now[i].test_id,
        ) by {
            if j < u.len() {
                assert(!store::is_for(u[j], u[i].config, u[i].test_id));
            } else {
                assert(now[i] == u[i]);
                if u[i] == r {
                    assert(!store::is_for(rows[rows.len() - 1], r.config, r.test_id));
                } else {
                    assert(front.contains(u[i]));
                    let k = choose|k: int| 0 <= k < front.len() && front[k] == u[i];
                    assert(!store::is_for(rows[rows.len() - 1], rows[k].config, rows[k].test_id));
                }
            }
        }
    } else {
        assert(now == rows.push(r));
        assert forall|i: int| 0 <= i < now.len() implies (#[trigger] now[i]) == r
            || rows.contains(now[i]) by {
            if i < rows.len() {
                assert(now[i] == rows[i]);
            }
        }
        assert forall|i: int, j: int| 0 <= i < j < now.len() implies !store::is_for(
            #[trigger] now[j],
            (#[trigger] now[i]).config,
            now[i].test_id,
        ) by {
            if j < rows.len() {
                assert(!store::is_for(rows[j], rows[i].config, rows[i].test_id));
            } else {
                assert(!store::is_for(rows[i], r.config, r.test_id));
            }
        }
    }
}

/// Loading the records that were saved brings back every record, and no
/// other.
pub proof fn loading_what_was_saved_restores_every_record(
    rows: Seq<RecordView>,
    config: Seq<char>,
    test_id: Seq<char>,
)
    requires
        store::unique_keys(rows),
    ensures
        lookup(
            store::all_stored(seq![], ranking::ranked(rows, store::by_key())),
            config,
            test_id,
        ) == lookup(rows, config, test_id),
{
    let saved = ranking::ranked(rows, store::by_key());
    lemma_ranked_keeps_unique(rows);
    lemma_storing_unique_rows(saved);
    store::lemma_position(rows, config, test_id);
    store::lemma_position(saved, config, test_id);
    let i = store::position(rows, config, test_id);
    let j = store::position(saved, config, test_id);
    if i < rows.len() {
        assert(rows.contains(rows[i]));
        ranking::ranked_elements(rows, store::by_key(), rows[i]);
        let k = choose|k: int| 0 <= k < saved.len() && saved[k] == rows[i];
        unique_records_are_found(saved, k);
    } else if j < saved.len() {
        assert(saved.contains(saved[j]));
        ranking::ranked_elements(rows, store::by_key(), saved[j]);
        let k = choose|k: int| 0 <= k < rows.len() && rows[k] == saved[j];
        assert(!store::is_for(rows[k], config, test_id));
    }
}

proof fn lemma_unique_front(rows: Seq<RecordView>)
    requires
        rows.len() > 0,
        store::unique_keys(rows),
    ensures
        store::unique_keys(rows.drop_last()),
{
    let front = rows.drop_last();
    assert forall|i: int, j: int| 0 <= i < j < front.len() implies !store::is_for(
        #[trigger] front[j],
        (#[trigger] front[i]).config,
        front[i].test_id,
    ) by {
        assert(!store::is_for(rows[j], rows[i].config, rows[i].test_id));
    }
}

proof fn lemma_one_sorted_row(a: Seq<RecordView>, b: Seq<RecordView>)
    requires
        store::unique_keys(a),
        ranking::in_rank_order(a, store::by_key()),
        ranking::in_rank_order(b, store::by_key()),
        a.to_multiset() == b.to_multiset(),
    ensures
        a == b,
    decreases a.len(),
{
    broadcast use group_to_multiset_ensures;

    let lt = store::by_key();
    to_multiset_len(a);
    to_multiset_len(b);
    if a.len() > 0 {
        let x = a.last();
        let y = b.last();
        assert(a.contains(x) && b.contains(y)) by {
            assert(a[a.len() - 1] == x);
            assert(b[b.len() - 1] == y);
        }
        assert(b.to_multiset().count(x) > 0 && a.to_multiset().count(y) > 0);
        assert(b.contains(x) && a.contains(y));
        let i = choose|i: int| 0 <= i < b.len() && b[i] == x;
        let j = choose|j: int| 0 <= j < a.len() && a[j] == y;
        if j < a.len() - 1 {
            assert(!lt(a[a.len() - 1], a[j]));
            assert(!store::is_for(a[a.len() - 1], a[j].config, a[j].test_id));
            assert(i < b.len() - 1);
            assert(!lt(b[b.len() - 1], b[i]));
            text::precedes_is_a_strict_total_order(x.config, y.config, x.config);
            text::precedes_is_a_strict_total_order(x.test_id, y.test_id, x.test_id);
            assert(false);
        }
        assert(x == y);
        let fa = a.drop_last();
        let fb = b.drop_last();
        assert(fa.push(x) =~= a);
        assert(fb.push(x) =~= b);
        assert(fa.to_multiset() =~= a.to_multiset().remove(x));
        assert(fb.to_multiset() =~= b.to_multiset().remove(x));
        lemma_unique_front(a);
        assert forall|i: int, j: int| 0 <= i < j < fa.len() implies !lt(
            #[trigger] fa[j],
            #[trigger] fa[i],
        ) by {
            assert(!lt(a[j], a[i]));
        }
        assert forall|i: int, j: int| 0 <= i < j < fb.len() implies !lt(
            #[trigger] fb[j],
            #[trigger] fb[i],
        ) by {
            assert(!lt(b[j], b[i]));
        }
        lemma_one_sorted_row(fa, fb);
    } else {
        assert(a =~= b);
    }
}

/// What is saved depends on the records alone, not on the order in which
/// they came.
pub proof fn saved_order_is_determined_by_the_records(a: Seq<RecordView>, b: Seq<RecordView>)
    requires
        store::unique_keys(a),
        a.to_multiset() == b.to_multiset(),
    ensures
        ranking::ranked(a, store::by_key()) == ranking::ranked(b, store::by_key()),
{
    let lt = store::by_key();
    store::lemma_keys_are_ordered();
    ranking::ranked_is_a_permutation(a, lt);
    ranking::ranked_is_a_permutation(b, lt);
    ranking::ranked_is_in_rank_order(a, lt);
    ranking::ranked_is_in_rank_order(b, lt);
    lemma_ranked_keeps_unique(a);
    lemma_one_sorted_row(ranking::ranked(a, lt), ranking::ranked(b, lt));
}

proof fn lemma_percentile_order(p: nat, q: nat, n: nat)
    requires
        n > 0,
        p <= q,
    ensures
        0 <= store::percentile_index(p, n) <= store::percentile_index(q, n) < n,
{
    assert(0 <= p * (n - 1) <= q * (n - 1)) by (nonlinear_arith)
        requires
            p <= q,
            n > 0,
    ;
}

/// Higher percentiles are not shorter.
pub proof fn percentiles_are_ordered(samples: Seq<SampleView>)
    requires
        store::percentiles(samples) is Some,
    ensures
        ({
            let d = store::percentiles(samples)->0;
            d.p50 <= d.p75 <= d.p90 <= d.p95
        }),
{
    let durations = samples.map_values(|s: SampleView| s.duration);
    let lt = ranking::rank_order::<u64>();
    let sorted = store::sorted_durations(samples);
    let n = samples.len();
    ranking::ranked_is_in_rank_order(durations, lt);
    ranking::ranked_is_a_permutation(durations, lt);
    lemma_percentile_order(50, 75, n);
    lemma_percentile_order(75, 90, n);
    lemma_percentile_order(90, 95, n);
    let (a, b, c, d) = (
        store::percentile_index(50, n),
        store::percentile_index(75, n),
        store::percentile_index(90, n),
        store::percentile_index(95, n),
    );
    assert(a < b ==> !lt(sorted[b], sorted[a]));
    assert(b < c ==> !lt(sorted[c], sorted[b]));
    assert(c < d ==> !lt(sorted[d], sorted[c]));
}

/// A percentile is the duration of one of the samples.
pub proof fn a_percentile_is_a_sampled_duration(samples: Seq<SampleView>, p: nat)
    requires
        samples.len() > 0,
    ensures
        exists|i: int|
            0 <= i < samples.len() && (#[trigger] samples[i]).duration
                == store::sorted_durations(samples)[store::percentile_index(p, samples.len())],
{
    let durations = samples.map_values(|s: SampleView| s.duration);
    let lt = ranking::rank_order::<u64>();
    let sorted = store::sorted_durations(samples);
    let at = store::percentile_index(p, samples.len());
    lemma_percentile_order(p, p, samples.len());
    ranking::ranked_is_a_permutation(durations, lt);
    assert(sorted.contains(sorted[at]));
    ranking::ranked_elements(durations, lt, sorted[at]);
    let k = choose|k: int| 0 <= k < durations.len() && durations[k] == sorted[at];
    assert(samples[k].duration == sorted[at]);
}

/// No test fails more often than one listed before it, and none that is left
/// out fails more often than one listed.
pub proof fn flakiest_tests_come_first(stats: Seq<StatsView>, limit: nat, i: int, j: int)
    requires
        0 <= i < store::at_most(ranking::ranked(stats, store::flakier()), limit).len(),
        i < j < stats.len(),
    ensures
        ({
            let sorted = ranking::ranked(stats, store::flakier());
            let listed = store::at_most(sorted, limit);
            &&& sorted.to_multiset() == stats.to_multiset()
            &&& sorted.len() == stats.len()
            &&& listed[i] == sorted[i]
            &&& !store::flakier()(sorted[j], listed[i])
        }),
{
    store::lemma_rates_are_ordered();
    ranking::ranked_is_a_permutation(stats, store::flakier());
    ranking::ranked_is_in_rank_order(stats, store::flakier());
    let sorted = ranking::ranked(stats, store::flakier());
    assert(!store::flakier()(sorted[j], sorted[i]));
}

/// No test has a longer median than one listed before it, and none that is
/// left out has a longer one than one listed.
pub proof fn slowest_tests_come_first(stats: Seq<StatsView>, limit: nat, i: int, j: int)
    requires
        0 <= i < store::at_most(ranking::ranked(stats, store::slower()), limit).len(),
        i < j < stats.len(),
    ensures
        ({
            let sorted = ranking::ranked(stats, store::slower());
            let listed = store::at_most(sorted, limit);
            &&& sorted.to_multiset() == stats.to_multiset()
            &&& sorted.len() == stats.len()
            &&& listed[i] == sorted[i]
            &&& store::median(listed[i]) >= store::median(sorted[j])
        }),
{
    ranking::ranked_is_a_permutation(stats, store::slower());
    ranking::ranked_is_in_rank_order(stats, store::slower());
    let sorted = ranking::ranked(stats, store::slower());
    assert(!store::slower()(sorted[j], sorted[i]));
}

/// The latest run is a run of one of the records, and none comes after it.
pub proof fn the_latest_run_is_the_last(rows: Seq<RecordView>, i: int)
    requires
        0 <= i < rows.len(),
    ensures
        store::latest_run(rows) is Some,
        !text::precedes(store::latest_run(rows)->0, rows[i].last_run),
        exists|k: int|
            0 <= k < rows.len() && (#[trigger] rows[k]).last_run == store::latest_run(rows)->0,
    decreases rows.len(),
{
    let front = rows.drop_last();
    let run = rows.last().last_run;
    let latest = store::latest_run(rows)->0;
    text::precedes_is_a_strict_total_order(run, run, run);
    assert(rows[rows.len() - 1].last_run == run);
    if front.len() > 0 {
        let k = if i < front.len() {
            i
        } else {
            0
        };
        the_latest_run_is_the_last(front, k);
        let best = store::latest_run(front)->0;
        let w = choose|w: int| 0 <= w < front.len() && (#[trigger] front[w]).last_run == best;
        assert(rows[w].last_run == best);
        if i < front.len() {
            assert(front[i] == rows[i]);
            text::precedes_is_a_strict_total_order(run, rows[i].last_run, best);
            text::precedes_is_a_strict_total_order(best, run, rows[i].last_run);
        }
    }
}

proof fn lemma_filter_keeps_unique(rows: Seq<RecordView>, p: spec_fn(RecordView) -> bool)
    requires
        store::unique_keys(rows),
    ensures
        store::unique_keys(rows.filter(p)),
    decreases rows.len(),
{
    if rows.len() == 0 {
        reveal(Seq::filter);
    } else {
        let front = rows.drop_last();
        let r = rows.last();
        assert(front.push(r) =~= rows);
        lemma_unique_front(rows);
        lemma_filter_keeps_unique(front, p);
        ranking::lemma_filter_push(front, r, p);
        let kept = front.filter(p);
        let now = rows.filter(p);
        assert forall|i: int, j: int| 0 <= i < j < now.len() implies !store::is_for(
            #[trigger] now[j],
            (#[trigger] now[i]).config,
            now[i].test_id,
        ) by {
            if j < kept.len() {
                assert(!store::is_for(kept[j], kept[i].config, kept[i].test_id));
            } else {
                ranking::lemma_filter_elements(front, p, i);
                let k = choose|k: int| 0 <= k < front.len() && front[k] == kept[i];
                assert(!store::is_for(rows[rows.len() - 1], rows[k].config, rows[k].test_id));
            }
        }
    }
}

/// Every test of a configuration has exactly one duration to schedule by, and
/// no other test has one.
pub proof fn scheduling_durations_cover_the_configuration(
    rows: Seq<RecordView>,
    config: Seq<char>,
    default: u64,
    test_id: Seq<char>,
)
    requires
        store::unique_keys(rows),
    ensures
        lookup(rows, config, test_id) is Some <==> exists|k: int|
            0 <= k < store::scheduling_durations(rows, config, default).len() && (
            #[trigger] store::scheduling_durations(rows, config, default)[k]).0 == test_id,
        forall|k: int|
            0 <= k < store::scheduling_durations(rows, config, default).len() ==> (
            #[trigger] store::scheduling_durations(rows, config, default)[k]).1
                == store::estimate(
                rows,
                config,
                store::scheduling_durations(rows, config, default)[k].0,
                default,
            ),
        forall|k: int, m: int|
            0 <= k < m < store::scheduling_durations(rows, config, default).len() ==> (
            #[trigger] store::scheduling_durations(rows, config, default)[k]).0 != (
            #[trigger] store::scheduling_durations(rows, config, default)[m]).0,
{
    let p = store::of_config(config);
    let own = rows.filter(p);
    let listed = store::scheduling_durations(rows, config, default);
    store::lemma_position(rows, config, test_id);
    let i = store::position(rows, config, test_id);
    if i < rows.len() {
        rows.lemma_filter_contains(p, i);
        assert(own.contains(rows[i]));
        let k = choose|k: int| 0 <= k < own.len() && own[k] == rows[i];
        assert(listed[k].0 == test_id);
    }
    if exists|k: int| 0 <= k < listed.len() && (#[trigger] listed[k]).0 == test_id {
        let k = choose|k: int| 0 <= k < listed.len() && (#[trigger] listed[k]).0 == test_id;
        ranking::lemma_filter_elements(rows, p, k);
        let m = choose|m: int| 0 <= m < rows.len() && rows[m] == own[k];
        assert(store::is_for(rows[m], config, test_id));
    }
    lemma_filter_keeps_unique(rows, p);
    assert forall|k: int, m: int| 0 <= k < m < listed.len() implies (#[trigger] listed[k]).0 != (
    #[trigger] listed[m]).0 by {
        assert(!store::is_for(own[m], own[k].config, own[k].test_id));
        ranking::lemma_filter_elements(rows, p, k);
        ranking::lemma_filter_elements(rows, p, m);
    }
}

/// Whether a row holds the durations of samples, shortest first.
pub open spec fn sorts(row: Seq<u64>, samples: Seq<SampleView>) -> bool {
    &&& row.len() == samples.len()
    &&& row.to_multiset() == samples.map_values(|s: SampleView| s.duration).to_multiset()
    &&& forall|i: int, j: int| 0 <= i < j < row.len() ==> #[trigger] row[i] <= #[trigger] row[j]
}

/// Whether a value stands in a row `p` percent of the way to the last one, to
/// the nearest place, and to the later of two that are equally near.
pub open spec fn stands_at_percent(row: Seq<u64>, p: nat, v: u64) -> bool {
    exists|k: int|
        0 <= k < row.len() && 100 * k - 50 <= p * (row.len() - 1) < 100 * k + 50
            && #[trigger] row[k] == v
}

/// Whether a duration is the `p`-th percentile of the durations of samples.
pub open spec fn is_percentile(samples: Seq<SampleView>, p: nat, v: u64) -> bool {
    exists|row: Seq<u64>| #[trigger] sorts(row, samples) && stands_at_percent(row, p, v)
}

/// Whether there are percentiles of samples, from five samples on, and they
/// are those of their durations.
pub open spec fn are_percentiles(samples: Seq<SampleView>, d: Option<DurationStats>) -> bool {
    &&& d is Some <==> samples.len() >= 5
    &&& d is Some ==> {
        &&& is_percentile(samples, 50, d->0.p50)
        &&& is_percentile(samples, 75, d->0.p75)
        &&& is_percentile(samples, 90, d->0.p90)
        &&& is_percentile(samples, 95, d->0.p95)
    }
}

proof fn lemma_stands_at_percent(samples: Seq<SampleView>, p: nat)
    requires
        samples.len() > 0,
        p <= 100,
    ensures
        is_percentile(
            samples,
            p,
            store::sorted_durations(samples)[store::percentile_index(p, samples.len())],
        ),
{
    let durations = samples.map_values(|s: SampleView| s.duration);
    let lt = ranking::rank_order::<u64>();
    let row = store::sorted_durations(samples);
    let n = samples.len();
    let k = store::percentile_index(p, n);
    ranking::ranked_is_a_permutation(durations, lt);
    ranking::ranked_is_in_rank_order(durations, lt);
    assert forall|i: int, j: int| 0 <= i < j < row.len() implies #[trigger] row[i]
        <= #[trigger] row[j] by {
        assert(!lt(row[j], row[i]));
    }
    lemma_percentile_order(p, p, n);
    assert(p * (n - 1) <= 100 * (n - 1)) by (nonlinear_arith)
        requires
            p <= 100,
            n > 0,
    ;
    assert(sorts(row, samples));
    assert(row[k] == row[k]);
    assert(stands_at_percent(row, p, row[k]));
}

/// Percentiles are drawn from five samples on, and each stands where it
/// belongs among the sorted durations.
pub proof fn percentiles_are_those_of_the_durations(samples: Seq<SampleView>)
    ensures
        are_percentiles(samples, store::percentiles(samples)),
{
    if samples.len() >= 5 {
        lemma_stands_at_percent(samples, 50);
        lemma_stands_at_percent(samples, 75);
        lemma_stands_at_percent(samples, 90);
        lemma_stands_at_percent(samples, 95);
    }
}

/// The newest timestamp is that of a sample, and no sample has a newer one.
pub proof fn the_newest_timestamp_is_the_largest(samples: Seq<SampleView>)
    ensures
        forall|i: int|
            0 <= i < samples.len() ==> (#[trigger] samples[i]).timestamp_ms <= store::newest(
                samples,
            ),
        samples.len() == 0 ==> store::newest(samples) == 0,
        samples.len() > 0 ==> exists|i: int|
            0 <= i < samples.len() && (#[trigger] samples[i]).timestamp_ms == store::newest(
                samples,
            ),
    decreases samples.len(),
{
    if samples.len() > 0 {
        let front = samples.drop_last();
        let now = store::newest(samples);
        the_newest_timestamp_is_the_largest(front);
        assert(samples[samples.len() - 1] == samples.last());
        assert forall|i: int| 0 <= i < samples.len() implies (#[trigger] samples[i]).timestamp_ms
            <= now by {
            if i < front.len() {
                assert(front[i] == samples[i]);
            }
        }
        if now == samples.last().timestamp_ms {
            assert(samples[samples.len() - 1].timestamp_ms == now);
        } else if front.len() > 0 {
            let k = choose|k: int|
                0 <= k < front.len() && (#[trigger] front[k]).timestamp_ms == store::newest(front);
            assert(samples[k].timestamp_ms == now);
        }
    }
}

/// Statistics of a record: durations of passes come from the samples of runs
/// that passed, durations of failures from those that failed, and the last
/// attempt is the newest of all samples.
pub proof fn statistics_show_what_the_record_holds(r: RecordView)
    requires
        r.attempts <= u64::MAX,
        r.failures <= u64::MAX,
    ensures
        ({
            let s = store::stats_of(r);
            &&& s.config == r.config
            &&& s.test_id == r.test_id
            &&& s.attempts == r.attempts
            &&& s.failures == r.failures
            &&& s.failure_rate.failures == r.failures
            &&& s.failure_rate.attempts == r.attempts
            &&& s.last_run_id == r.last_run
            &&& are_percentiles(r.ok, s.duration.success)
            &&& are_percentiles(r.fail, s.duration.failure)
            &&& forall|i: int|
                0 <= i < (r.ok + r.fail).len() ==> (#[trigger] (r.ok + r.fail)[i]).timestamp_ms
                    <= s.last_attempt_ms
            &&& (r.ok + r.fail).len() == 0 ==> s.last_attempt_ms == 0
            &&& (r.ok + r.fail).len() > 0 ==> exists|i: int|
                0 <= i < (r.ok + r.fail).len() && (#[trigger] (r.ok + r.fail)[i]).timestamp_ms
                    == s.last_attempt_ms
        }),
{
    let s = store::stats_of(r);
    let all = r.ok + r.fail;
    percentiles_are_those_of_the_durations(r.ok);
    percentiles_are_those_of_the_durations(r.fail);
    the_newest_timestamp_is_the_largest(r.ok);
    the_newest_timestamp_is_the_largest(r.fail);
    assert forall|i: int| 0 <= i < all.len() implies (#[trigger] all[i]).timestamp_ms
        <= s.last_attempt_ms by {
        if i < r.ok.len() {
            assert(all[i] == r.ok[i]);
        } else {
            assert(all[i] == r.fail[i - r.ok.len()]);
        }
    }
    if all.len() > 0 {
        if s.last_attempt_ms == store::newest(r.ok) && r.ok.len() > 0 {
            let k = choose|k: int|
                0 <= k < r.ok.len() && (#[trigger] r.ok[k]).timestamp_ms == store::newest(r.ok);
            assert(all[k] == r.ok[k]);
        } else {
            let k = choose|k: int|
                0 <= k < r.fail.len() && (#[trigger] r.fail[k]).timestamp_ms == store::newest(
                    r.fail,
                );
            assert(all[r.ok.len() + k] == r.fail[k]);
        }
    }
}

/// Records of a configuration with enough passes to tell how long they take.
pub open spec fn with_passes(config: Seq<char>) -> spec_fn(RecordView) -> bool {
    |r: RecordView| r.config == config && r.ok.len() >= 5
}

/// Choosing records, mapping them, choosing among the images and mapping again
/// comes to choosing and mapping once.
proof fn lemma_chosen_images<A, B, C>(
    s: Seq<A>,
    own: spec_fn(A) -> bool,
    f: spec_fn(A) -> B,
    p: spec_fn(B) -> bool,
    g: spec_fn(B) -> C,
    q: spec_fn(A) -> bool,
    h: spec_fn(A) -> C,
)
    requires
        forall|a: A| #[trigger] q(a) <==> own(a) && p(f(a)),
        forall|a: A| #[trigger] h(a) == g(f(a)),
    ensures
        s.filter(own).map_values(f).filter(p).map_values(g) == s.filter(q).map_values(h),
    decreases s.len(),
{
    if s.len() == 0 {
        reveal(Seq::filter);
        assert(s.filter(own).map_values(f) =~= Seq::<B>::empty());
        assert(s.filter(own).map_values(f).filter(p).map_values(g) =~= s.filter(q).map_values(h));
    } else {
        let front = s.drop_last();
        let a = s.last();
        lemma_chosen_images(front, own, f, p, g, q, h);
        assert(front.push(a) =~= s);
        ranking::lemma_filter_push(front, a, own);
        ranking::lemma_filter_push(front, a, q);
        let before = front.filter(own).map_values(f);
        if own(a) {
            assert(s.filter(own).map_values(f) =~= before.push(f(a)));
            ranking::lemma_filter_push(before, f(a), p);
            if p(f(a)) {
                assert(before.filter(p).push(f(a)).map_values(g) =~= before.filter(p).map_values(
                    g,
                ).push(h(a)));
                assert(front.filter(q).push(a).map_values(h) =~= front.filter(q).map_values(
                    h,
                ).push(h(a)));
            }
        }
    }
}

proof fn lemma_known_p75s(rows: Seq<RecordView>, config: Seq<char>)
    ensures
        store::known_p75s(store::all_stats(rows, config)) == rows.filter(
            with_passes(config),
        ).map_values(|r: RecordView| store::stats_of(r).duration.success->0.p75),
{
    lemma_chosen_images(
        rows,
        store::of_config(config),
        |r: RecordView| store::stats_of(r),
        |s: StatsView| s.duration.success is Some,
        |s: StatsView| s.duration.success->0.p75,
        with_passes(config),
        |r: RecordView| store::stats_of(r).duration.success->0.p75,
    );
}

/// How long a test is expected to take: the 75th percentiles of its passes and
/// of its failures, weighted by its share of failures; where only one of them
/// is known, that one; else the mean of the 75th percentiles of passes over
/// the tests of the configuration for which it is known; else the default.
pub proof fn estimates_follow_from_the_records(
    rows: Seq<RecordView>,
    config: Seq<char>,
    test_id: Seq<char>,
    default: u64,
)
    requires
        lookup(rows, config, test_id) matches Some(r) ==> r.attempts <= u64::MAX && r.failures
            <= u64::MAX,
    ensures
        ({
            let e = store::estimate(rows, config, test_id, default);
            let known = rows.filter(with_passes(config));
            let (oks, fails) = match lookup(rows, config, test_id) {
                Some(r) => (r.ok, r.fail),
                None => (seq![], seq![]),
            };
            if oks.len() >= 5 && fails.len() >= 5 {
                e matches EstimateView::Weighted { ok, fail, rate } && {
                    &&& is_percentile(oks, 75, ok)
                    &&& is_percentile(fails, 75, fail)
                    &&& rate.failures == failures_of(rows, config, test_id)
                    &&& rate.attempts == attempts_of(rows, config, test_id)
                }
            } else if oks.len() >= 5 {
                e matches EstimateView::Single(v) && is_percentile(oks, 75, v)
            } else if fails.len() >= 5 {
                e matches EstimateView::Single(v) && is_percentile(fails, 75, v)
            } else if known.len() > 0 {
                e matches EstimateView::Average(vs) && {
                    &&& vs.len() == known.len()
                    &&& forall|i: int|
                        0 <= i < vs.len() ==> is_percentile(known[i].ok, 75, #[trigger] vs[i])
                }
            } else {
                e == EstimateView::Single(default)
            }
        }),
{
    let known = rows.filter(with_passes(config));
    store::lemma_position(rows, config, test_id);
    if let Some(r) = lookup(rows, config, test_id) {
        percentiles_are_those_of_the_durations(r.ok);
        percentiles_are_those_of_the_durations(r.fail);
    }
    lemma_known_p75s(rows, config);
    let h = |r: RecordView| store::stats_of(r).duration.success->0.p75;
    assert forall|i: int| 0 <= i < known.len() implies is_percentile(
        known[i].ok,
        75,
        #[trigger] known.map_values(h)[i],
    ) by {
        ranking::lemma_filter_elements(rows, with_passes(config), i);
        percentiles_are_those_of_the_durations(known[i].ok);
    }
}

/// However results were recorded, where a test has percentiles of both
/// outcomes, the weight of the failing duration is its share of failed
/// results.
pub proof fn estimates_are_weighted_by_the_share_of_failures(
    calls: Calls,
    capacity: nat,
    config: Seq<char>,
    test_id: Seq<char>,
    default: u64,
)
    requires
        results_of(calls).len() <= u64::MAX,
    ensures
        ({
            let rows = after_calls(calls, capacity);
            let own = results_of(calls).filter(for_test(config, test_id));
            match lookup(rows, config, test_id) {
                None => true,
                Some(r) => r.ok.len() >= 5 && r.fail.len() >= 5 ==> {
                    &&& store::estimate(
                        rows,
                        config,
                        test_id,
                        default,
                    ) matches EstimateView::Weighted { ok, fail, rate }
                    &&& rate.failures == own.filter(failed()).len()
                    &&& rate.attempts == own.len()
                    &&& is_percentile(r.ok, 75, ok)
                    &&& is_percentile(r.fail, 75, fail)
                },
            }
        }),
{
    let all = results_of(calls);
    records_follow_from_all_results(calls, capacity, config, test_id);
    all.lemma_filter_len(for_test(config, test_id));
    all.filter(for_test(config, test_id)).lemma_filter_len(failed());
    estimates_follow_from_the_records(
        after_calls(calls, capacity),
        config,
        test_id,
        default,
    );
}

/// Whether a run is the latest one of a configuration: one of its records
/// names it as its last run, and none names a later one.
pub open spec fn is_latest(rows: Seq<RecordView>, config: Seq<char>, run: Seq<char>) -> bool {
    &&& exists|i: int|
        0 <= i < rows.len() && (#[trigger] rows[i]).config == config && rows[i].last_run == run
    &&& forall|i: int|
        0 <= i < rows.len() && (#[trigger] rows[i]).config == config ==> !text::precedes(
            run,
            rows[i].last_run,
        )
}

/// Whether a record of a test holds the sample of a failure in a run.
pub open spec fn holds_failure(
    r: RecordView,
    config: Seq<char>,
    test_id: Seq<char>,
    run: Seq<char>,
) -> bool {
    &&& r.config == config
    &&& r.test_id == test_id
    &&& exists|k: int| 0 <= k < r.fail.len() && (#[trigger] r.fail[k]).run_id == run
}

/// A test is listed as failed in the latest run exactly if its record holds
/// the sample of a failure in that run; without records of the configuration
/// none is.
pub proof fn failures_of_the_latest_run_are_listed(
    rows: Seq<RecordView>,
    config: Seq<char>,
    test_id: Seq<char>,
    run: Seq<char>,
)
    ensures
        is_latest(rows, config, run) ==> (store::latest_failures(rows, config).contains(test_id)
            <==> exists|i: int|
            0 <= i < rows.len() && holds_failure(#[trigger] rows[i], config, test_id, run)),
        (forall|i: int| 0 <= i < rows.len() ==> (#[trigger] rows[i]).config != config)
            ==> store::latest_failures(rows, config).len() == 0,
{
    let p = store::of_config(config);
    let own = rows.filter(p);
    if own.len() == 0 {
        assert(store::latest_run(own) is None);
        if is_latest(rows, config, run) {
            let i = choose|i: int|
                0 <= i < rows.len() && (#[trigger] rows[i]).config == config && rows[i].last_run
                    == run;
            lemma_kept_by_filter(rows, p, i);
        }
    } else {
        ranking::lemma_filter_elements(rows, p, 0);
        let m = choose|m: int| 0 <= m < rows.len() && rows[m] == own[0];
        assert(rows[m].config == config);
        the_latest_run_is_the_last(own, 0);
        let latest = store::latest_run(own)->0;
        let hit = |r: RecordView| store::failed_in(r, latest);
        let f = |r: RecordView| r.test_id;
        let kept = own.filter(hit);
        if is_latest(rows, config, run) {
            let i = choose|i: int|
                0 <= i < rows.len() && (#[trigger] rows[i]).config == config && rows[i].last_run
                    == run;
            lemma_kept_by_filter(rows, p, i);
            let a = choose|a: int| 0 <= a < own.len() && own[a] == rows[i];
            the_latest_run_is_the_last(own, a);
            let b = choose|b: int| 0 <= b < own.len() && (#[trigger] own[b]).last_run == latest;
            ranking::lemma_filter_elements(rows, p, b);
            let c = choose|c: int| 0 <= c < rows.len() && rows[c] == own[b];
            assert(!text::precedes(run, rows[c].last_run));
            text::precedes_is_a_strict_total_order(run, latest, run);
            assert(run == latest);
            assert(store::latest_failures(rows, config) == kept.map_values(f));
            if kept.map_values(f).contains(test_id) {
                let x = choose|x: int|
                    0 <= x < kept.map_values(f).len() && kept.map_values(f)[x] == test_id;
                ranking::lemma_filter_elements(own, hit, x);
                let y = choose|y: int| 0 <= y < own.len() && own[y] == kept[x];
                ranking::lemma_filter_elements(rows, p, y);
                let z = choose|z: int| 0 <= z < rows.len() && rows[z] == own[y];
                assert(store::sampled_in(rows[z].fail, run));
                assert(holds_failure(rows[z], config, test_id, run));
            }
            if exists|z: int|
                0 <= z < rows.len() && holds_failure(#[trigger] rows[z], config, test_id, run) {
                let z = choose|z: int|
                    0 <= z < rows.len() && holds_failure(#[trigger] rows[z], config, test_id, run);
                lemma_kept_by_filter(rows, p, z);
                let y = choose|y: int| 0 <= y < own.len() && own[y] == rows[z];
                assert(hit(own[y]));
                lemma_kept_by_filter(own, hit, y);
                let x = choose|x: int| 0 <= x < kept.len() && kept[x] == own[y];
                assert(kept.map_values(f)[x] == test_id);
            }
        }
    }
}

proof fn lemma_kept_by_filter<A>(s: Seq<A>, p: spec_fn(A) -> bool, i: int)
    requires
        0 <= i < s.len(),
        p(s[i]),
    ensures
        s.filter(p).contains(s[i]),
    decreases s.len(),
{
    let front = s.drop_last();
    assert(front.push(s.last()) =~= s);
    ranking::lemma_filter_push(front, s.last(), p);
    let now = s.filter(p);
    if i < front.len() {
        lemma_kept_by_filter(front, p, i);
        let k = choose|k: int| 0 <= k < front.filter(p).len() && front.filter(p)[k] == front[i];
        assert(now[k] == s[i]);
    } else {
        assert(now[now.len() - 1] == s[i]);
    }
}

/// The statistics of a configuration are those of its records, one of each.
pub proof fn statistics_are_listed_by_configuration(rows: Seq<RecordView>, config: Seq<char>)
    ensures
        ({
            let own = rows.filter(|r: RecordView| r.config == config);
            let stats = store::all_stats(rows, config);
            &&& stats.len() == own.len()
            &&& forall|i: int|
                0 <= i < own.len() ==> #[trigger] stats[i] == store::stats_of(own[i])
                    && stats[i].config == config
        }),
{
    let p = |r: RecordView| r.config == config;
    assert(store::of_config(config) =~= p);
    let own = rows.filter(p);
    let stats = store::all_stats(rows, config);
    assert forall|i: int| 0 <= i < own.len() implies #[trigger] stats[i] == store::stats_of(own[i])
        && stats[i].config == config by {
        ranking::lemma_filter_elements(rows, p, i);
    }
}

/// Of the tests ranked by how often they fail the first ones are listed, at
/// most as many as asked for, and no later test has failed in a larger share
/// of its attempts.
pub proof fn flakiest_tests_have_the_largest_shares(
    stats: Seq<StatsView>,
    limit: nat,
    i: int,
    j: int,
)
    requires
        0 <= i < j < stats.len(),
    ensures
        ({
            let sorted = ranking::ranked(stats, store::flakier());
            let listed = store::at_most(sorted, limit);
            let (a, b) = (sorted[i].failure_rate, sorted[j].failure_rate);
            &&& sorted.to_multiset() == stats.to_multiset()
            &&& listed.len() == if limit < stats.len() {
                limit
            } else {
                stats.len()
            }
            &&& i < listed.len() ==> listed[i] == sorted[i]
            &&& a.attempts > 0 && b.attempts > 0 ==> a.failures * b.attempts >= b.failures
                * a.attempts
            &&& a.attempts == 0 && b.attempts > 0 ==> b.failures == 0
        }),
{
    let sorted = ranking::ranked(stats, store::flakier());
    store::lemma_rates_are_ordered();
    ranking::ranked_is_a_permutation(stats, store::flakier());
    ranking::ranked_is_in_rank_order(stats, store::flakier());
    assert(!store::flakier()(sorted[j], sorted[i]));
    let (a, b) = (sorted[i].failure_rate, sorted[j].failure_rate);
    if a.attempts == 0 {
        assert(0 * b.attempts == 0);
    }
}

/// Of the tests ranked by how long they take the first ones are listed, at
/// most as many as asked for, and no later test has a longer median of passes;
/// a test with too few passes counts as taking no time.
pub proof fn slowest_tests_have_the_longest_medians(
    stats: Seq<StatsView>,
    limit: nat,
    i: int,
    j: int,
)
    requires
        0 <= i < j < stats.len(),
    ensures
        ({
            let sorted = ranking::ranked(stats, store::slower());
            let listed = store::at_most(sorted, limit);
            let median = |s: StatsView|
                match s.duration.success {
                    Some(d) => d.p50,
                    None => 0x8000_0000_0000_0000u64,
                };
            &&& sorted.to_multiset() == stats.to_multiset()
            &&& listed.len() == if limit < stats.len() {
                limit
            } else {
                stats.len()
            }
            &&& i < listed.len() ==> listed[i] == sorted[i]
            &&& median(sorted[i]) >= median(sorted[j])
        }),
{
    let sorted = ranking::ranked(stats, store::slower());
    ranking::ranked_is_a_permutation(stats, store::slower());
    ranking::ranked_is_in_rank_order(stats, store::slower());
    assert(!store::slower()(sorted[j], sorted[i]));
}

/// Records are saved by configuration and, within one, by test id.
pub proof fn records_are_saved_by_key(rows: Seq<RecordView>, i: int, j: int)
    requires
        0 <= i < j < rows.len(),
    ensures
        ({
            let saved = ranking::ranked(rows, store::by_key());
            &&& saved.to_multiset() == rows.to_multiset()
            &&& !text::precedes(saved[j].config, saved[i].config)
            &&& saved[i].config == saved[j].config ==> !text::precedes(
                saved[j].test_id,
                saved[i].test_id,
            )
        }),
{
    let saved = ranking::ranked(rows, store::by_key());
    store::lemma_keys_are_ordered();
    ranking::ranked_is_a_permutation(rows, store::by_key());
    ranking::ranked_is_in_rank_order(rows, store::by_key());
    assert(!store::by_key()(saved[j], saved[i]));
}

/// Results that passed.
pub open spec fn succeeded() -> spec_fn(AttemptView) -> bool {
    |a: AttemptView| a.passed
}

/// The samples of results, in order.
pub open spec fn samples_of(results: Seq<AttemptView>) -> Seq<SampleView> {
    results.map_values(|a: AttemptView| a.sample)
}

/// Whether a record holds the samples of all results of an outcome, as long as
/// there are no more than `capacity`.
pub open spec fn keeps_all(r: RecordView, own: Seq<AttemptView>, capacity: nat) -> bool {
    let (passes, fails) = (own.filter(succeeded()), own.filter(failed()));
    &&& passes.len() <= capacity ==> r.ok == samples_of(passes)
    &&& fails.len() <= capacity ==> r.fail == samples_of(fails)
}

proof fn lemma_update_keeps_all(
    base: RecordView,
    own: Seq<AttemptView>,
    a: AttemptView,
    draws: Seq<u64>,
    capacity: nat,
)
    requires
        keeps_all(base, own, capacity),
    ensures
        keeps_all(store::updated(base, a, draws, capacity), own.push(a), capacity),
{
    let (passes, fails) = (own.filter(succeeded()), own.filter(failed()));
    ranking::lemma_filter_push(own, a, succeeded());
    ranking::lemma_filter_push(own, a, failed());
    if a.passed {
        assert(samples_of(passes.push(a)) =~= samples_of(passes).push(a.sample));
        if passes.len() < capacity {
            reservoir::reservoir_with_room_keeps_every_sample(base.ok, a.sample, draws, capacity);
        }
    } else {
        assert(samples_of(fails.push(a)) =~= samples_of(fails).push(a.sample));
        if fails.len() < capacity {
            reservoir::reservoir_with_room_keeps_every_sample(
                base.fail,
                a.sample,
                draws,
                capacity,
            );
        }
    }
}

proof fn lemma_recording_keeps_all(
    rows: Seq<RecordView>,
    past: Seq<AttemptView>,
    attempts: Seq<AttemptView>,
    draws: Seq<Seq<u64>>,
    capacity: nat,
    config: Seq<char>,
    test_id: Seq<char>,
)
    requires
        match lookup(rows, config, test_id) {
            None => past.filter(for_test(config, test_id)).len() == 0,
            Some(r) => keeps_all(r, past.filter(for_test(config, test_id)), capacity),
        },
    ensures
        match lookup(store::all_recorded(rows, attempts, draws, capacity), config, test_id) {
            None => (past + attempts).filter(for_test(config, test_id)).len() == 0,
            Some(r) => keeps_all(r, (past + attempts).filter(for_test(config, test_id)), capacity),
        },
    decreases attempts.len(),
{
    if attempts.len() == 0 {
        assert(past + attempts =~= past);
    } else {
        let front = attempts.drop_last();
        let a = attempts.last();
        let d = store::draws_for(draws, attempts.len() - 1);
        let before = store::all_recorded(rows, front, draws, capacity);
        let p = for_test(config, test_id);
        lemma_recording_keeps_all(rows, past, front, draws, capacity, config, test_id);
        lemma_recording_sets_one_record(before, a, d, capacity, config, test_id);
        assert(past + attempts =~= (past + front).push(a));
        ranking::lemma_filter_push(past + front, a, p);
        if p(a) {
            let own = (past + front).filter(p);
            let base = match lookup(before, config, test_id) {
                Some(r) => r,
                None => store::blank_record(config, test_id),
            };
            if own.len() == 0 && lookup(before, config, test_id) is None {
                reveal(Seq::filter);
                assert(own =~= Seq::<AttemptView>::empty());
                assert(samples_of(own.filter(succeeded())) =~= base.ok);
                assert(samples_of(own.filter(failed())) =~= base.fail);
            }
            lemma_update_keeps_all(base, own, a, d, capacity);
        }
    }
}

/// However results were recorded, the samples of all passes of a test are kept
/// in order while there is room for them, and so are those of its failures,
/// whatever is drawn.
pub proof fn no_sample_is_lost_while_there_is_room(
    calls: Calls,
    capacity: nat,
    config: Seq<char>,
    test_id: Seq<char>,
)
    ensures
        match lookup(after_calls(calls, capacity), config, test_id) {
            None => results_of(calls).filter(for_test(config, test_id)).len() == 0,
            Some(r) => keeps_all(
                r,
                results_of(calls).filter(for_test(config, test_id)),
                capacity,
            ),
        },
    decreases calls.len(),
{
    if calls.len() == 0 {
        reveal(Seq::filter);
    } else {
        let front = calls.drop_last();
        no_sample_is_lost_while_there_is_room(front, capacity, config, test_id);
        lemma_recording_keeps_all(
            after_calls(front, capacity),
            results_of(front),
            calls.last().0,
            calls.last().1,
            capacity,
            config,
            test_id,
        );
    }
}

/// The record found for a test is the first of its configuration and its id;
/// none is found exactly if there is no such record.
pub proof fn records_are_found_by_configuration_and_id(
    rows: Seq<RecordView>,
    config: Seq<char>,
    test_id: Seq<char>,
)
    ensures
        match lookup(rows, config, test_id) {
            Some(r) => {
                &&& r.config == config
                &&& r.test_id == test_id
                &&& exists|i: int|
                    0 <= i < rows.len() && #[trigger] rows[i] == r && forall|j: int|
                        0 <= j < i ==> (#[trigger] rows[j]).config != config || rows[j].test_id
                            != test_id
            },
            None => forall|i: int|
                0 <= i < rows.len() ==> (#[trigger] rows[i]).config != config || rows[i].test_id
                    != test_id,
        },
{
    store::lemma_position(rows, config, test_id);
    let k = store::position(rows, config, test_id);
    assert forall|j: int| 0 <= j < k implies (#[trigger] rows[j]).config != config
        || rows[j].test_id != test_id by {
        assert(!store::is_for(rows[j], config, test_id));
    }
    if k < rows.len() {
        assert(rows[k] == rows[k]);
    }
}

proof fn lemma_results_for(attempts: Seq<AttemptView>, config: Seq<char>, test_id: Seq<char>)
    ensures
        store::results_for(attempts, config, test_id) == attempts.filter(
            for_test(config, test_id),
        ).len(),
        store::failed_results_for(attempts, config, test_id) == attempts.filter(
            for_test(config, test_id),
        ).filter(failed()).len(),
    decreases attempts.len(),
{
    let p = for_test(config, test_id);
    if attempts.len() == 0 {
        reveal(Seq::filter);
    } else {
        let front = attempts.drop_last();
        let a = attempts.last();
        lemma_results_for(front, config, test_id);
        assert(front.push(a) =~= attempts);
        ranking::lemma_filter_push(front, a, p);
        if p(a) {
            ranking::lemma_filter_push(front.filter(p), a, failed());
        }
    }
}

/// There is room for results exactly if no counter of a record gets larger than
/// it can be: that of all attempts by all results of its test, and that of
/// failures by those that failed.
pub proof fn room_is_left_for_what_is_counted(rows: Seq<RecordView>, attempts: Seq<AttemptView>)
    ensures
        store::room_for(rows, attempts) <==> forall|i: int|
            0 <= i < rows.len() ==> {
                let own = attempts.filter(for_test((#[trigger] rows[i]).config, rows[i].test_id));
                &&& rows[i].attempts + own.len() <= 0xffff_ffff_ffff_ffff
                &&& rows[i].failures + own.filter(failed()).len() <= 0xffff_ffff_ffff_ffff
            },
{
    assert forall|i: int| 0 <= i < rows.len() implies {
        let own = attempts.filter(for_test((#[trigger] rows[i]).config, rows[i].test_id));
        &&& store::results_for(attempts, rows[i].config, rows[i].test_id) == own.len()
        &&& store::failed_results_for(attempts, rows[i].config, rows[i].test_id) == own.filter(
            failed(),
        ).len()
    } by {
        lemma_results_for(attempts, rows[i].config, rows[i].test_id);
    }
}

/// The size of the largest reservoir is that of one, and none is larger.
pub proof fn the_largest_reservoir_is_one_of_them(rows: Seq<RecordView>)
    ensures
        forall|i: int|
            0 <= i < rows.len() ==> (#[trigger] rows[i]).ok.len() <= store::longest(rows)
                && rows[i].fail.len() <= store::longest(rows),
        rows.len() == 0 ==> store::longest(rows) == 0,
        rows.len() > 0 ==> exists|i: int|
            0 <= i < rows.len() && ((#[trigger] rows[i]).ok.len() == store::longest(rows)
                || rows[i].fail.len() == store::longest(rows)),
    decreases rows.len(),
{
    if rows.len() > 0 {
        let front = rows.drop_last();
        let n = rows.len() - 1;
        let most = store::longest(rows);
        the_largest_reservoir_is_one_of_them(front);
        assert(rows[n] == rows.last());
        assert forall|i: int| 0 <= i < rows.len() implies (#[trigger] rows[i]).ok.len() <= most
            && rows[i].fail.len() <= most by {
            if i < n {
                assert(front[i] == rows[i]);
            }
        }
        if rows[n].ok.len() != most && rows[n].fail.len() != most {
            let i = choose|i: int|
                0 <= i < front.len() && ((#[trigger] front[i]).ok.len() == most
                    || front[i].fail.len() == most);
            assert(rows[i] == front[i]);
        }
    }
}

/// A reservoir grows with every result, but not beyond the capacity; one that
/// is larger than that does not shrink.
pub proof fn reservoirs_grow_up_to_the_capacity(size: nat, n: nat, capacity: nat)
    ensures
        store::grown(size, 0, capacity) == size,
        store::grown(size, n + 1, capacity) == if store::grown(size, n, capacity) < capacity {
            store::grown(size, n, capacity) + 1
        } else {
            store::grown(size, n, capacity)
        },
{
}

/// One more result of a test counts as an attempt, and as a failure if it
/// failed; its run is the last one; and its sample is offered to the reservoir
/// of its outcome, while the other one stays as it is. A test without a record
/// starts with an empty one, and the records of other tests stay.
pub proof fn a_result_updates_the_record_of_its_test(
    rows: Seq<RecordView>,
    a: AttemptView,
    draws: Seq<u64>,
    capacity: nat,
    config: Seq<char>,
    test_id: Seq<char>,
)
    ensures
        ({
            let now = store::recorded(rows, a, draws, capacity);
            let (attempts, failures, ok, fail) = match lookup(rows, config, test_id) {
                Some(r) => (r.attempts, r.failures, r.ok, r.fail),
                None => (0, 0, seq![], seq![]),
            };
            if a.config == config && a.test_id == test_id {
                lookup(now, config, test_id) matches Some(r) && {
                    &&& r.config == config
                    &&& r.test_id == test_id
                    &&& r.attempts == attempts + 1
                    &&& r.last_run == a.sample.run_id
                    &&& a.passed ==> r.failures == failures && r.fail == fail && r.ok
                        == reservoir::resampled(ok, a.sample, draws, capacity)
                    &&& !a.passed ==> r.failures == failures + 1 && r.ok == ok && r.fail
                        == reservoir::resampled(fail, a.sample, draws, capacity)
                }
            } else {
                lookup(now, config, test_id) == lookup(rows, config, test_id)
            }
        }),
{
    store::lemma_position(rows, config, test_id);
    lemma_recording_sets_one_record(rows, a, draws, capacity, config, test_id);
}

/// Results are recorded one after the other, each with its own draws, and
/// without any where none are given.
pub proof fn results_are_recorded_in_turn(
    rows: Seq<RecordView>,
    attempts: Seq<AttemptView>,
    a: AttemptView,
    draws: Seq<Seq<u64>>,
    capacity: nat,
)
    ensures
        store::all_recorded(rows, seq![], draws, capacity) == rows,
        store::all_recorded(rows, attempts.push(a), draws, capacity) == store::recorded(
            store::all_recorded(rows, attempts, draws, capacity),
            a,
            if attempts.len() < draws.len() {
                draws[attempts.len() as int]
            } else {
                seq![]
            },
            capacity,
        ),
{
    assert(attempts.push(a).drop_last() =~= attempts);
}

proof fn lemma_latest_run_is_latest(rows: Seq<RecordView>, config: Seq<char>)
    requires
        rows.filter(store::of_config(config)).len() > 0,
    ensures
        is_latest(rows, config, store::latest_run(rows.filter(store::of_config(config)))->0),
{
    let p = store::of_config(config);
    let own = rows.filter(p);
    the_latest_run_is_the_last(own, 0);
    let run = store::latest_run(own)->0;
    let b = choose|b: int| 0 <= b < own.len() && (#[trigger] own[b]).last_run == run;
    ranking::lemma_filter_elements(rows, p, b);
    let c = choose|c: int| 0 <= c < rows.len() && rows[c] == own[b];
    assert(rows[c].config == config && rows[c].last_run == run);
    assert forall|i: int|
        0 <= i < rows.len() && (#[trigger] rows[i]).config == config implies !text::precedes(
        run,
        rows[i].last_run,
    ) by {
        lemma_kept_by_filter(rows, p, i);
        let a = choose|a: int| 0 <= a < own.len() && own[a] == rows[i];
        the_latest_run_is_the_last(own, a);
    }
}

/// A test without the sample of a failure on its records is never listed as
/// failed.
pub proof fn a_test_without_failures_is_never_listed(
    rows: Seq<RecordView>,
    config: Seq<char>,
    test_id: Seq<char>,
)
    requires
        forall|i: int|
            0 <= i < rows.len() && (#[trigger] rows[i]).config == config && rows[i].test_id
                == test_id ==> rows[i].fail.len() == 0,
    ensures
        !store::latest_failures(rows, config).contains(test_id),
{
    let own = rows.filter(store::of_config(config));
    if own.len() > 0 {
        let run = store::latest_run(own)->0;
        lemma_latest_run_is_latest(rows, config);
        failures_of_the_latest_run_are_listed(rows, config, test_id, run);
    } else {
        assert(store::latest_run(own) is None);
        assert(store::latest_failures(rows, config).len() == 0);
    }
}

/// Of the records stored for a test the last one counts; where none was stored,
/// its record stays.
pub proof fn the_last_record_of_a_test_counts(
    rows: Seq<RecordView>,
    more: Seq<RecordView>,
    config: Seq<char>,
    test_id: Seq<char>,
)
    ensures
        ({
            let own = more.filter(|r: RecordView| r.config == config && r.test_id == test_id);
            lookup(store::all_stored(rows, more), config, test_id) == if own.len() > 0 {
                Some(own.last())
            } else {
                lookup(rows, config, test_id)
            }
        }),
    decreases more.len(),
{
    let p = |r: RecordView| r.config == config && r.test_id == test_id;
    if more.len() == 0 {
        reveal(Seq::filter);
    } else {
        let front = more.drop_last();
        let r = more.last();
        the_last_record_of_a_test_counts(rows, front, config, test_id);
        assert(front.push(r) =~= more);
        ranking::lemma_filter_push(front, r, p);
        storing_sets_one_record(store::all_stored(rows, front), r, config, test_id);
    }
}

} // verus!
