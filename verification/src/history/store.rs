//! Test history storage with bounded samples per test.

use crate::history::laws;
use crate::history::record;
use crate::history::record::{
    AttemptView, CompactSample, DurationEstimate, DurationStats, EstimateView, FailureRate,
    HistoryError, HistoryRecord, OutcomeStats, RecordView, SampleView, StatsView,
    TestAttemptResult, TestStatistics, TestValues,
};
use crate::history::reservoir;
use crate::ranking;
use crate::ranking::Ranked;
use crate::text;
use vstd::prelude::*;

verus! {

/// Fewest samples from which percentiles are drawn.
pub const MIN_PERCENTILE_SAMPLES: usize = 5;

/// Where the `p`-th percentile stands among `n` sorted values: `p` percent of
/// the way to the last, to the nearest place, halves rounded up, and the last
/// above 100 percent.
pub open spec fn percentile_index(p: nat, n: nat) -> int {
    let at = (p * (n - 1) + 50) / 100;
    if at < n {
        at
    } else {
        n - 1
    }
}

/// Durations of samples, shortest first.
pub open spec fn sorted_durations(samples: Seq<SampleView>) -> Seq<u64> {
    ranking::ranked(
        samples.map_values(|s: SampleView| s.duration),
        ranking::rank_order::<u64>(),
    )
}

/// Percentiles of the durations of samples, where there are enough.
pub open spec fn percentiles(samples: Seq<SampleView>) -> Option<DurationStats> {
    let sorted = sorted_durations(samples);
    let n = samples.len();
    if n < MIN_PERCENTILE_SAMPLES {
        None
    } else {
        Some(
            DurationStats {
                p50: sorted[percentile_index(50, n)],
                p75: sorted[percentile_index(75, n)],
                p90: sorted[percentile_index(90, n)],
                p95: sorted[percentile_index(95, n)],
            },
        )
    }
}

/// Newest timestamp of samples; 0 without samples.
pub open spec fn newest(samples: Seq<SampleView>) -> u64
    decreases samples.len(),
{
    if samples.len() == 0 {
        0
    } else {
        let before = newest(samples.drop_last());
        if before < samples.last().timestamp_ms {
            samples.last().timestamp_ms
        } else {
            before
        }
    }
}

/// Statistics drawn from a record.
pub open spec fn stats_of(r: RecordView) -> StatsView {
    StatsView {
        test_id: r.test_id,
        config: r.config,
        attempts: r.attempts,
        failures: r.failures,
        failure_rate: FailureRate { failures: r.failures as u64, attempts: r.attempts as u64 },
        duration: OutcomeStats { success: percentiles(r.ok), failure: percentiles(r.fail) },
        last_attempt_ms: if newest(r.ok) < newest(r.fail) {
            newest(r.fail)
        } else {
            newest(r.ok)
        },
        last_run_id: r.last_run,
    }
}

/// Whether a record is the one for a test under a configuration.
pub open spec fn is_for(r: RecordView, config: Seq<char>, test_id: Seq<char>) -> bool {
    r.config == config && r.test_id == test_id
}

/// Index of the record for a test under a configuration; the number of
/// records where there is none.
pub open spec fn position(rows: Seq<RecordView>, config: Seq<char>, test_id: Seq<char>) -> int
    decreases rows.len(),
{
    if rows.len() == 0 || is_for(rows[0], config, test_id) {
        0
    } else {
        1 + position(rows.skip(1), config, test_id)
    }
}

/// Records of a configuration.
pub open spec fn of_config(config: Seq<char>) -> spec_fn(RecordView) -> bool {
    |r: RecordView| r.config == config
}

/// Statistics of the tests of a configuration.
pub open spec fn all_stats(rows: Seq<RecordView>, config: Seq<char>) -> Seq<StatsView> {
    rows.filter(of_config(config)).map_values(|r: RecordView| stats_of(r))
}

/// Numerator of a failure rate.
pub open spec fn rate_over(r: FailureRate) -> int {
    if r.attempts == 0 {
        0
    } else {
        r.failures as int
    }
}

/// Denominator of a failure rate.
pub open spec fn rate_under(r: FailureRate) -> int {
    if r.attempts == 0 {
        1
    } else {
        r.attempts as int
    }
}

/// The test that fails more often ranks first.
pub open spec fn flakier() -> spec_fn(StatsView, StatsView) -> bool {
    |a: StatsView, b: StatsView|
        rate_over(a.failure_rate) * rate_under(b.failure_rate) > rate_over(b.failure_rate)
            * rate_under(a.failure_rate)
}

/// Median duration of the runs that passed; that of zero seconds where there
/// are too few.
pub open spec fn median(s: StatsView) -> u64 {
    match s.duration.success {
        Some(d) => d.p50,
        None => record::ZERO_DURATION,
    }
}

/// The test with the longer median ranks first.
pub open spec fn slower() -> spec_fn(StatsView, StatsView) -> bool {
    |a: StatsView, b: StatsView| median(a) > median(b)
}

/// At most `limit` elements from the front.
pub open spec fn at_most<A>(s: Seq<A>, limit: nat) -> Seq<A> {
    if limit < s.len() {
        s.take(limit as int)
    } else {
        s
    }
}

/// The latest run among records: the largest id in the order of strings.
pub open spec fn latest_run(rows: Seq<RecordView>) -> Option<Seq<char>>
    decreases rows.len(),
{
    if rows.len() == 0 {
        None
    } else {
        let run = rows.last().last_run;
        match latest_run(rows.drop_last()) {
            None => Some(run),
            Some(best) => if text::precedes(best, run) {
                Some(run)
            } else {
                Some(best)
            },
        }
    }
}

/// Whether a sample of the run is among the samples.
pub open spec fn sampled_in(samples: Seq<SampleView>, run: Seq<char>) -> bool {
    exists|i: int| 0 <= i < samples.len() && (#[trigger] samples[i]).run_id == run
}

/// Whether a failure in the run is among the samples of a record.
pub open spec fn failed_in(r: RecordView, run: Seq<char>) -> bool {
    sampled_in(r.fail, run)
}

/// Ids of the tests of a configuration that failed in its latest run.
pub open spec fn latest_failures(rows: Seq<RecordView>, config: Seq<char>) -> Seq<Seq<char>> {
    let own = rows.filter(of_config(config));
    match latest_run(own) {
        None => seq![],
        Some(run) => own.filter(|r: RecordView| failed_in(r, run)).map_values(
            |r: RecordView| r.test_id,
        ),
    }
}

/// 75th percentiles of the runs that passed, of the tests that have one.
pub open spec fn known_p75s(stats: Seq<StatsView>) -> Seq<u64> {
    stats.filter(|s: StatsView| s.duration.success is Some).map_values(
        |s: StatsView| s.duration.success->0.p75,
    )
}

/// The duration to expect of a test: from its own samples, else the mean over
/// the tests of the configuration, else the default.
pub open spec fn estimate(
    rows: Seq<RecordView>,
    config: Seq<char>,
    test_id: Seq<char>,
    default: u64,
) -> EstimateView {
    let i = position(rows, config, test_id);
    let own = stats_of(rows[i]).duration;
    let known = known_p75s(all_stats(rows, config));
    if i < rows.len() && own.success is Some && own.failure is Some {
        EstimateView::Weighted {
            ok: own.success->0.p75,
            fail: own.failure->0.p75,
            rate: stats_of(rows[i]).failure_rate,
        }
    } else if i < rows.len() && own.success is Some {
        EstimateView::Single(own.success->0.p75)
    } else if i < rows.len() && own.failure is Some {
        EstimateView::Single(own.failure->0.p75)
    } else if known.len() > 0 {
        EstimateView::Average(known)
    } else {
        EstimateView::Single(default)
    }
}

/// A record without attempts.
pub open spec fn blank_record(config: Seq<char>, test_id: Seq<char>) -> RecordView {
    RecordView {
        config,
        test_id,
        attempts: 0,
        failures: 0,
        last_run: seq![],
        ok: seq![],
        fail: seq![],
    }
}

/// A record after one more attempt.
pub open spec fn updated(
    r: RecordView,
    a: AttemptView,
    draws: Seq<u64>,
    capacity: nat,
) -> RecordView {
    RecordView {
        config: r.config,
        test_id: r.test_id,
        attempts: r.attempts + 1,
        failures: if a.passed {
            r.failures
        } else {
            r.failures + 1
        },
        last_run: a.sample.run_id,
        ok: if a.passed {
            reservoir::resampled(r.ok, a.sample, draws, capacity)
        } else {
            r.ok
        },
        fail: if a.passed {
            r.fail
        } else {
            reservoir::resampled(r.fail, a.sample, draws, capacity)
        },
    }
}

/// The records after one more attempt.
pub open spec fn recorded(
    rows: Seq<RecordView>,
    a: AttemptView,
    draws: Seq<u64>,
    capacity: nat,
) -> Seq<RecordView> {
    let i = position(rows, a.config, a.test_id);
    if i < rows.len() {
        rows.update(i, updated(rows[i], a, draws, capacity))
    } else {
        rows.push(updated(blank_record(a.config, a.test_id), a, draws, capacity))
    }
}

/// The draws for the `i`-th result.
pub open spec fn draws_for(draws: Seq<Seq<u64>>, i: int) -> Seq<u64> {
    if i < draws.len() {
        draws[i]
    } else {
        seq![]
    }
}

/// The records after all attempts in turn.
pub open spec fn all_recorded(
    rows: Seq<RecordView>,
    attempts: Seq<AttemptView>,
    draws: Seq<Seq<u64>>,
    capacity: nat,
) -> Seq<RecordView>
    decreases attempts.len(),
{
    if attempts.len() == 0 {
        rows
    } else {
        recorded(
            all_recorded(rows, attempts.drop_last(), draws, capacity),
            attempts.last(),
            draws_for(draws, attempts.len() - 1),
            capacity,
        )
    }
}

/// The records with one more; it replaces the one with its key.
pub open spec fn stored(rows: Seq<RecordView>, r: RecordView) -> Seq<RecordView> {
    let i = position(rows, r.config, r.test_id);
    if i < rows.len() {
        rows.update(i, r)
    } else {
        rows.push(r)
    }
}

/// The records after all of `more` were stored in turn.
pub open spec fn all_stored(rows: Seq<RecordView>, more: Seq<RecordView>) -> Seq<RecordView>
    decreases more.len(),
{
    if more.len() == 0 {
        rows
    } else {
        stored(all_stored(rows, more.drop_last()), more.last())
    }
}

/// The record with the smaller key ranks first: by configuration, then by
/// test id.
pub open spec fn by_key() -> spec_fn(RecordView, RecordView) -> bool {
    |a: RecordView, b: RecordView|
        text::precedes(a.config, b.config) || (a.config == b.config && text::precedes(
            a.test_id,
            b.test_id,
        ))
}

/// Whether no two records have one key.
pub open spec fn unique_keys(rows: Seq<RecordView>) -> bool {
    forall|i: int, j: int|
        0 <= i < j < rows.len() ==> !is_for(
            #[trigger] rows[j],
            (#[trigger] rows[i]).config,
            rows[i].test_id,
        )
}

/// Number of results for a test.
pub open spec fn results_for(
    attempts: Seq<AttemptView>,
    config: Seq<char>,
    test_id: Seq<char>,
) -> nat
    decreases attempts.len(),
{
    if attempts.len() == 0 {
        0
    } else {
        let a = attempts.last();
        results_for(attempts.drop_last(), config, test_id) + if a.config == config && a.test_id
            == test_id {
            1nat
        } else {
            0nat
        }
    }
}

/// Number of failed results for a test.
pub open spec fn failed_results_for(
    attempts: Seq<AttemptView>,
    config: Seq<char>,
    test_id: Seq<char>,
) -> nat
    decreases attempts.len(),
{
    if attempts.len() == 0 {
        0
    } else {
        let a = attempts.last();
        failed_results_for(attempts.drop_last(), config, test_id) + if !a.passed && a.config
            == config && a.test_id == test_id {
            1nat
        } else {
            0nat
        }
    }
}

/// Whether the counters of all records have room for the results.
pub open spec fn room_for(rows: Seq<RecordView>, attempts: Seq<AttemptView>) -> bool {
    forall|i: int|
        0 <= i < rows.len() ==> (#[trigger] rows[i]).attempts + results_for(
            attempts,
            rows[i].config,
            rows[i].test_id,
        ) <= u64::MAX && rows[i].failures + failed_results_for(
            attempts,
            rows[i].config,
            rows[i].test_id,
        ) <= u64::MAX
}

/// The first results hold no more results for a test than all of them, and
/// these are no more than there are.
proof fn lemma_results_of_front(
    attempts: Seq<AttemptView>,
    k: int,
    config: Seq<char>,
    test_id: Seq<char>,
)
    requires
        0 <= k <= attempts.len(),
    ensures
        results_for(attempts.take(k), config, test_id) <= results_for(attempts, config, test_id),
        failed_results_for(attempts.take(k), config, test_id) <= failed_results_for(
            attempts,
            config,
            test_id,
        ),
        failed_results_for(attempts, config, test_id) <= results_for(attempts, config, test_id)
            <= attempts.len(),
    decreases attempts.len(),
{
    if attempts.len() > 0 {
        let front = attempts.drop_last();
        if k < attempts.len() {
            lemma_results_of_front(front, k, config, test_id);
            assert(front.take(k) =~= attempts.take(k));
        } else {
            lemma_results_of_front(front, front.len() as int, config, test_id);
            assert(attempts.take(k) =~= attempts);
        }
    }
}

/// Whether the record of a test has room for one more result.
pub open spec fn counts_on(rows: Seq<RecordView>, a: AttemptView) -> bool {
    let i = position(rows, a.config, a.test_id);
    i < rows.len() ==> rows[i].attempts < u64::MAX && (a.passed || rows[i].failures < u64::MAX)
}

/// Where there is room for all results, there is room for each in turn.
proof fn lemma_room_is_left(
    rows: Seq<RecordView>,
    attempts: Seq<AttemptView>,
    draws: Seq<Seq<u64>>,
    capacity: nat,
    k: int,
)
    requires
        room_for(rows, attempts),
        0 <= k < attempts.len() <= u64::MAX,
    ensures
        counts_on(all_recorded(rows, attempts.take(k), draws, capacity), attempts[k]),
{
    let a = attempts[k];
    let (config, test_id) = (a.config, a.test_id);
    laws::recording_counts_every_result(rows, attempts.take(k), draws, capacity, config, test_id);
    lemma_results_of_front(attempts, k + 1, config, test_id);
    assert(attempts.take(k + 1).drop_last() =~= attempts.take(k));
    assert(attempts.take(k + 1).last() == a);
    lemma_position(rows, config, test_id);
}

/// Number of samples that are offered to a reservoir when a result goes into
/// it: those it holds, and the new one.
pub open spec fn offered_count(rows: Seq<RecordView>, a: AttemptView) -> nat {
    let i = position(rows, a.config, a.test_id);
    1 + if i >= rows.len() {
        0
    } else if a.passed {
        rows[i].ok.len()
    } else {
        rows[i].fail.len()
    }
}

/// Size of the largest reservoir.
pub open spec fn longest(rows: Seq<RecordView>) -> nat
    decreases rows.len(),
{
    if rows.len() == 0 {
        0
    } else {
        let before = longest(rows.drop_last());
        let (ok, fail) = (rows.last().ok.len(), rows.last().fail.len());
        let here = if ok < fail {
            fail
        } else {
            ok
        };
        if before < here {
            here
        } else {
            before
        }
    }
}

/// How large a reservoir can get while `n` results are recorded, where the
/// largest holds `size` samples: it grows by one sample for each result, up to
/// the capacity.
pub open spec fn grown(size: nat, n: nat, capacity: nat) -> nat {
    if capacity <= size {
        size
    } else if capacity <= size + n {
        capacity
    } else {
        size + n
    }
}

proof fn lemma_longest(rows: Seq<RecordView>)
    ensures
        laws::bounded(rows, longest(rows)),
    decreases rows.len(),
{
    if rows.len() > 0 {
        let front = rows.drop_last();
        lemma_longest(front);
        assert forall|i: int| 0 <= i < rows.len() implies (#[trigger] rows[i]).ok.len() <= longest(
            rows,
        ) && rows[i].fail.len() <= longest(rows) by {
            if i < front.len() {
                assert(front[i] == rows[i]);
            }
        }
    }
}

proof fn lemma_reservoirs_grow(
    rows: Seq<RecordView>,
    attempts: Seq<AttemptView>,
    draws: Seq<Seq<u64>>,
    capacity: nat,
    size: nat,
)
    requires
        laws::bounded(rows, size),
    ensures
        laws::bounded(
            all_recorded(rows, attempts, draws, capacity),
            grown(size, attempts.len(), capacity),
        ),
    decreases attempts.len(),
{
    if attempts.len() > 0 {
        let front = attempts.drop_last();
        let a = attempts.last();
        let d = draws_for(draws, attempts.len() - 1);
        let before = all_recorded(rows, front, draws, capacity);
        let most = grown(size, attempts.len(), capacity);
        lemma_reservoirs_grow(rows, front, draws, capacity, size);
        lemma_position(before, a.config, a.test_id);
        let k = position(before, a.config, a.test_id);
        let base = if k < before.len() {
            before[k]
        } else {
            blank_record(a.config, a.test_id)
        };
        reservoir::reservoir_is_bounded(base.ok, a.sample, d, capacity);
        reservoir::reservoir_is_bounded(base.fail, a.sample, d, capacity);
        let now = recorded(before, a, d, capacity);
        assert forall|i: int| 0 <= i < now.len() implies (#[trigger] now[i]).ok.len() <= most
            && now[i].fail.len() <= most by {
            if i != k {
                assert(now[i] == before[i]);
            }
        }
    }
}

/// A position is an index of a record for the test, or the number of records.
pub proof fn lemma_position(rows: Seq<RecordView>, config: Seq<char>, test_id: Seq<char>)
    ensures
        0 <= position(rows, config, test_id) <= rows.len(),
        position(rows, config, test_id) < rows.len() ==> is_for(
            rows[position(rows, config, test_id)],
            config,
            test_id,
        ),
        forall|j: int|
            0 <= j < position(rows, config, test_id) ==> !is_for(
                #[trigger] rows[j],
                config,
                test_id,
            ),
    decreases rows.len(),
{
    if rows.len() > 0 && !is_for(rows[0], config, test_id) {
        let rest = rows.skip(1);
        lemma_position(rest, config, test_id);
        assert forall|j: int| 0 <= j < position(rows, config, test_id) implies !is_for(
            #[trigger] rows[j],
            config,
            test_id,
        ) by {
            if j > 0 {
                assert(rest[j - 1] == rows[j]);
            }
        }
    }
}

/// Computes duration percentiles from a set of samples.
///
/// Returns `None` if fewer than [`MIN_PERCENTILE_SAMPLES`] samples are
/// available, since percentile estimates are unreliable with too few data
/// points.
pub fn compute_percentiles(samples: &Vec<CompactSample>) -> (r: Option<DurationStats>)
    ensures
        r == percentiles(record::sample_views(samples@)),
{
    let ghost views = record::sample_views(samples@);
    let ghost f = |s: SampleView| s.duration;
    if samples.len() < MIN_PERCENTILE_SAMPLES {
        return None;
    }
    let mut durations: Vec<u64> = Vec::new();
    let mut i: usize = 0;
    while i < samples.len()
        invariant
            0 <= i <= samples@.len(),
            views == record::sample_views(samples@),
            f == (|s: SampleView| s.duration),
            durations@ == views.map_values(f).take(i as int),
        decreases samples@.len() - i,
    {
        durations.push(samples[i].duration);
        i += 1;
        proof {
            assert(views.map_values(f).take(i as int) =~= views.map_values(f).take(i - 1).push(
                samples@[i - 1].duration,
            ));
        }
    }
    proof {
        assert(views.map_values(f).take(i as int) =~= views.map_values(f));
        ranking::ranked_is_a_permutation(durations@, ranking::rank_order::<u64>());
    }
    let sorted = ranking::sort_by_rank(durations);
    Some(
        DurationStats {
            p50: percentile(&sorted, 50),
            p75: percentile(&sorted, 75),
            p90: percentile(&sorted, 90),
            p95: percentile(&sorted, 95),
        },
    )
}

/// Computes the p-th percentile from a sorted row of values.
fn percentile(sorted: &Vec<u64>, p: usize) -> (r: u64)
    requires
        sorted@.len() > 0,
    ensures
        0 <= percentile_index(p as nat, sorted@.len()) < sorted@.len(),
        r == sorted@[percentile_index(p as nat, sorted@.len())],
{
    let last: u128 = (sorted.len() - 1) as u128;
    proof {
        lemma_percentile_index(p as nat, sorted@.len());
        assert(p * last <= usize::MAX * usize::MAX) by (nonlinear_arith)
            requires
                p <= usize::MAX,
                last <= usize::MAX,
        ;
        assert(usize::MAX * usize::MAX <= u64::MAX * u64::MAX) by (nonlinear_arith)
            requires
                usize::MAX <= u64::MAX,
        ;
    }
    let idx: u128 = (p as u128 * last + 50) / 100;
    if idx <= last {
        sorted[idx as usize]
    } else {
        sorted[sorted.len() - 1]
    }
}

proof fn lemma_percentile_index(p: nat, n: nat)
    requires
        n > 0,
    ensures
        0 <= percentile_index(p, n) < n,
{
    assert(0 <= p * (n - 1)) by (nonlinear_arith)
        requires
            n > 0,
    ;
}

/// Newest timestamp of samples; 0 without samples.
fn newest_timestamp(samples: &Vec<CompactSample>) -> (r: u64)
    ensures
        r == newest(record::sample_views(samples@)),
{
    let ghost views = record::sample_views(samples@);
    let mut best: u64 = 0;
    let mut i: usize = 0;
    while i < samples.len()
        invariant
            0 <= i <= samples@.len(),
            views == record::sample_views(samples@),
            best == newest(views.take(i as int)),
        decreases samples@.len() - i,
    {
        if best < samples[i].timestamp_ms {
            best = samples[i].timestamp_ms;
        }
        i += 1;
        proof {
            assert(views.take(i as int).drop_last() =~= views.take(i - 1));
            assert(views.take(i as int).last() == samples@[i - 1]@);
        }
    }
    proof {
        assert(views.take(i as int) =~= views);
    }
    best
}

/// Statistics drawn from a record.
pub fn statistics(r: &HistoryRecord) -> (s: TestStatistics)
    ensures
        s@ == stats_of(r@),
{
    let ok_newest: u64 = newest_timestamp(&r.values.ok);
    let fail_newest: u64 = newest_timestamp(&r.values.fail);
    TestStatistics {
        test_id: r.key.1.clone(),
        config: r.key.0.clone(),
        total_attempts: r.values.total_attempts,
        total_failures: r.values.total_failures,
        failure_rate: FailureRate {
            failures: r.values.total_failures,
            attempts: r.values.total_attempts,
        },
        duration: OutcomeStats {
            success: compute_percentiles(&r.values.ok),
            failure: compute_percentiles(&r.values.fail),
        },
        last_attempt_ms: if ok_newest < fail_newest {
            fail_newest
        } else {
            ok_newest
        },
        last_run_id: r.values.last_run.clone(),
    }
}

/// Statistics with an order in which they are listed.
trait Listed: Ranked {
    /// What the statistics hold.
    spec fn stats(self) -> StatsView;

    /// The order in which they are listed.
    spec fn order() -> spec_fn(StatsView, StatsView) -> bool;

    /// The rank follows the order.
    proof fn rank_is_by_order(a: Self, b: Self)
        ensures
            a.ranks_before(b) == Self::order()(a.stats(), b.stats()),
    ;

    fn of(s: &TestStatistics) -> (r: Self)
        ensures
            r.stats() == s@,
    ;

    fn copy(&self) -> (r: TestStatistics)
        ensures
            r@ == self.stats(),
    ;
}

/// The first statistics in an order, at most `limit`.
fn top_listed<L: Listed>(stats: &Vec<TestStatistics>, limit: usize) -> (r: Vec<TestStatistics>)
    ensures
        stats_views(r@) == at_most(
            ranking::ranked(stats_views(stats@), L::order()),
            limit as nat,
        ),
{
    let mut rows: Vec<L> = Vec::new();
    let mut i: usize = 0;
    while i < stats.len()
        invariant
            0 <= i <= stats@.len(),
            rows@.len() == i,
            forall|j: int| 0 <= j < i ==> (#[trigger] rows@[j]).stats() == stats@[j]@,
        decreases stats@.len() - i,
    {
        rows.push(L::of(&stats[i]));
        i += 1;
    }
    let ghost f = |s: L| s.stats();
    proof {
        let lt = ranking::rank_order::<L>();
        assert(rows@.map_values(f) =~= stats_views(stats@));
        assert forall|a: L, b: L| rows@.contains(a) && rows@.contains(b) implies #[trigger] lt(
            a,
            b,
        ) == L::order()(f(a), f(b)) by {
            L::rank_is_by_order(a, b);
        }
        ranking::ranked_of_images(rows@, lt, f, L::order());
    }
    let sorted = ranking::sort_by_rank(rows);
    let ghost row = sorted@.map_values(f);
    let mut out: Vec<TestStatistics> = Vec::new();
    let mut k: usize = 0;
    while k < sorted.len() && k < limit
        invariant
            0 <= k <= sorted@.len(),
            k <= limit,
            out@.len() == k,
            forall|j: int| 0 <= j < k ==> (#[trigger] out@[j])@ == sorted@[j].stats(),
        decreases sorted@.len() - k,
    {
        out.push(sorted[k].copy());
        k += 1;
    }
    proof {
        assert(stats_views(out@) =~= at_most(row, limit as nat));
    }
    out
}

/// Statistics ranked by failure rate.
struct ByFailureRate(TestStatistics);

/// Failure rates are ordered strictly, and being equal carries over.
pub proof fn lemma_rates_are_ordered()
    ensures
        ranking::ranks(flakier()),
{
    let lt = flakier();
    assert forall|a: StatsView, b: StatsView, c: StatsView| #[trigger] lt(a, b) && #[trigger] lt(
        b,
        c,
    ) implies lt(a, c) by {
        let (x, y) = (rate_over(a.failure_rate), rate_under(a.failure_rate));
        let (u, v) = (rate_over(b.failure_rate), rate_under(b.failure_rate));
        let (p, q) = (rate_over(c.failure_rate), rate_under(c.failure_rate));
        assert(x * q > p * y) by (nonlinear_arith)
            requires
                x * v > u * y,
                u * q > p * v,
                y > 0,
                v > 0,
                q > 0,
                x >= 0,
                u >= 0,
                p >= 0,
        ;
    }
    assert forall|a: StatsView, b: StatsView, c: StatsView| !#[trigger] lt(a, b) && !#[trigger] lt(
        b,
        c,
    ) implies !lt(a, c) by {
        let (x, y) = (rate_over(a.failure_rate), rate_under(a.failure_rate));
        let (u, v) = (rate_over(b.failure_rate), rate_under(b.failure_rate));
        let (p, q) = (rate_over(c.failure_rate), rate_under(c.failure_rate));
        assert(x * q <= p * y) by (nonlinear_arith)
            requires
                x * v <= u * y,
                u * q <= p * v,
                y > 0,
                v > 0,
                q > 0,
                x >= 0,
                u >= 0,
                p >= 0,
        ;
    }
}

impl Ranked for ByFailureRate {
    closed spec fn ranks_before(self, other: Self) -> bool {
        flakier()(self.0@, other.0@)
    }

    proof fn ranks_are_ordered() {
        lemma_rates_are_ordered();
        let lt = |a: ByFailureRate, b: ByFailureRate| a.ranks_before(b);
        assert forall|a: ByFailureRate, b: ByFailureRate, c: ByFailureRate| #[trigger]
            lt(a, b) && #[trigger] lt(b, c) implies lt(a, c) by {
            assert(flakier()(a.0@, b.0@) && flakier()(b.0@, c.0@));
        }
        assert forall|a: ByFailureRate, b: ByFailureRate, c: ByFailureRate| !#[trigger] lt(
            a,
            b,
        ) && !#[trigger] lt(b, c) implies !lt(a, c) by {
            assert(!flakier()(a.0@, b.0@) && !flakier()(b.0@, c.0@));
        }
    }

    fn before(&self, other: &Self) -> (r: bool) {
        let a = self.0.failure_rate;
        let b = other.0.failure_rate;
        let (x, y): (u64, u64) = if a.attempts == 0 {
            (0, 1)
        } else {
            (a.failures, a.attempts)
        };
        let (u, v): (u64, u64) = if b.attempts == 0 {
            (0, 1)
        } else {
            (b.failures, b.attempts)
        };
        proof {
            assert(x * v <= u64::MAX * u64::MAX) by (nonlinear_arith)
                requires
                    x <= u64::MAX,
                    v <= u64::MAX,
            ;
            assert(u * y <= u64::MAX * u64::MAX) by (nonlinear_arith)
                requires
                    u <= u64::MAX,
                    y <= u64::MAX,
            ;
        }
        x as u128 * v as u128 > u as u128 * y as u128
    }
}

impl Listed for ByFailureRate {
    closed spec fn stats(self) -> StatsView {
        self.0@
    }

    closed spec fn order() -> spec_fn(StatsView, StatsView) -> bool {
        flakier()
    }

    proof fn rank_is_by_order(a: Self, b: Self) {
    }

    fn of(s: &TestStatistics) -> (r: Self) {
        ByFailureRate(s.clone())
    }

    fn copy(&self) -> (r: TestStatistics) {
        self.0.clone()
    }
}

/// Statistics ranked by median duration.
struct ByMedian(TestStatistics);

impl Ranked for ByMedian {
    closed spec fn ranks_before(self, other: Self) -> bool {
        slower()(self.0@, other.0@)
    }

    proof fn ranks_are_ordered() {
    }

    fn before(&self, other: &Self) -> (r: bool) {
        let a: u64 = match self.0.duration.success {
            Some(d) => d.p50,
            None => record::ZERO_DURATION,
        };
        let b: u64 = match other.0.duration.success {
            Some(d) => d.p50,
            None => record::ZERO_DURATION,
        };
        a > b
    }
}

impl Listed for ByMedian {
    closed spec fn stats(self) -> StatsView {
        self.0@
    }

    closed spec fn order() -> spec_fn(StatsView, StatsView) -> bool {
        slower()
    }

    proof fn rank_is_by_order(a: Self, b: Self) {
    }

    fn of(s: &TestStatistics) -> (r: Self) {
        ByMedian(s.clone())
    }

    fn copy(&self) -> (r: TestStatistics) {
        self.0.clone()
    }
}

impl Ranked for HistoryRecord {
    open spec fn ranks_before(self, other: Self) -> bool {
        by_key()(self@, other@)
    }

    proof fn ranks_are_ordered() {
        lemma_keys_are_ordered();
        let lt = |a: HistoryRecord, b: HistoryRecord| a.ranks_before(b);
        assert forall|a: HistoryRecord, b: HistoryRecord, c: HistoryRecord| #[trigger]
            lt(a, b) && #[trigger] lt(b, c) implies lt(a, c) by {
            assert(by_key()(a@, b@) && by_key()(b@, c@));
        }
        assert forall|a: HistoryRecord, b: HistoryRecord, c: HistoryRecord| !#[trigger] lt(
            a,
            b,
        ) && !#[trigger] lt(b, c) implies !lt(a, c) by {
            assert(!by_key()(a@, b@) && !by_key()(b@, c@));
        }
        assert forall|a: HistoryRecord| !#[trigger] lt(a, a) by {
            assert(!by_key()(a@, a@));
        }
    }

    fn before(&self, other: &Self) -> (r: bool) {
        text::text_precedes(self.key.0.as_str(), other.key.0.as_str()) || (text::same(
            self.key.0.as_str(),
            other.key.0.as_str(),
        ) && text::text_precedes(self.key.1.as_str(), other.key.1.as_str()))
    }
}

/// Keys of records are ordered strictly, and any two different keys are
/// ordered.
pub proof fn lemma_keys_are_ordered()
    ensures
        ranking::ranks(by_key()),
{
    let lt = by_key();
    assert forall|a: RecordView| !#[trigger] lt(a, a) by {
        text::precedes_is_a_strict_total_order(a.config, a.config, a.config);
        text::precedes_is_a_strict_total_order(a.test_id, a.test_id, a.test_id);
    }
    assert forall|a: RecordView, b: RecordView, c: RecordView| #[trigger] lt(a, b) && #[trigger] lt(
        b,
        c,
    ) implies lt(a, c) by {
        text::precedes_is_a_strict_total_order(a.config, b.config, c.config);
        text::precedes_is_a_strict_total_order(a.test_id, b.test_id, c.test_id);
    }
    assert forall|a: RecordView, b: RecordView, c: RecordView| !#[trigger] lt(a, b)
        && !#[trigger] lt(b, c) implies !lt(a, c) by {
        text::precedes_is_a_strict_total_order(c.config, b.config, a.config);
        text::precedes_is_a_strict_total_order(b.config, a.config, c.config);
        text::precedes_is_a_strict_total_order(a.config, c.config, b.config);
        text::precedes_is_a_strict_total_order(c.test_id, b.test_id, a.test_id);
        text::precedes_is_a_strict_total_order(b.test_id, a.test_id, c.test_id);
        text::precedes_is_a_strict_total_order(a.test_id, c.test_id, b.test_id);
    }
}

/// History of tests with bounded samples per test.
///
/// Holds one record per test and configuration. Each record maintains
/// reservoirs for success and failure samples, enabling percentile estimation
/// with bounded storage.
pub struct JsonlHistoryStore {
    records: Vec<HistoryRecord>,
    path: String,
    reservoir_size: usize,
    default_duration: u64,
}

impl JsonlHistoryStore {
    /// The records, in the order in which they came.
    pub closed spec fn rows(&self) -> Seq<RecordView> {
        record::record_views(self.records@)
    }

    /// There is one record per test and configuration.
    pub open spec fn wf(&self) -> bool {
        unique_keys(self.rows())
    }

    /// Path of the file that the store is saved to.
    pub closed spec fn file(&self) -> Seq<char> {
        self.path@
    }

    /// How many samples are kept of each outcome.
    pub closed spec fn capacity(&self) -> nat {
        self.reservoir_size as nat
    }

    /// Key of the duration expected of a test of which nothing is known.
    pub closed spec fn fallback(&self) -> u64 {
        self.default_duration
    }

    /// Creates a new empty store that will save to the given path.
    pub fn new(path: &str, reservoir_size: usize, default_duration: u64) -> (r: Self)
        ensures
            r.wf(),
            r.rows() == Seq::<RecordView>::empty(),
            r.file() == path@,
            r.capacity() == reservoir_size,
            r.fallback() == default_duration,
    {
        let r = JsonlHistoryStore {
            records: Vec::new(),
            path: path.to_owned(),
            reservoir_size,
            default_duration,
        };
        proof {
            assert(r.rows() =~= Seq::<RecordView>::empty());
        }
        r
    }

    /// A store of the records read from the lines of a file, in their order.
    /// Of records with one key the last one counts, and the first line that
    /// could not be read is an error.
    pub fn load(
        path: &str,
        reservoir_size: usize,
        default_duration: u64,
        lines: Vec<Result<HistoryRecord, HistoryError>>,
    ) -> (r: Result<Self, HistoryError>)
        ensures
            match r {
                Ok(store) => {
                    &&& store.wf()
                    &&& forall|i: int| 0 <= i < lines@.len() ==> (#[trigger] lines@[i]) is Ok
                    &&& store.rows() == all_stored(
                        seq![],
                        lines@.map_values(|l: Result<HistoryRecord, HistoryError>| l->Ok_0@),
                    )
                    &&& store.file() == path@
                    &&& store.capacity() == reservoir_size
                    &&& store.fallback() == default_duration
                },
                Err(e) => exists|i: int|
                    0 <= i < lines@.len() && #[trigger] lines@[i] == Err::<
                        HistoryRecord,
                        HistoryError,
                    >(e) && forall|j: int| 0 <= j < i ==> (#[trigger] lines@[j]) is Ok,
            },
    {
        let ghost all = lines@;
        let ghost f = |l: Result<HistoryRecord, HistoryError>| l->Ok_0@;
        let mut store = JsonlHistoryStore::new(path, reservoir_size, default_duration);
        let mut back = ranking::reversed(lines);
        proof {
            assert(back@.reverse() =~= all);
        }
        let ghost mut done: int = 0;
        proof {
            assert(all.map_values(f).take(0) =~= seq![]);
        }
        while back.len() > 0
            invariant
                0 <= done <= all.len(),
                all == lines@,
                back@.len() == all.len() - done,
                back@.reverse() == all.skip(done),
                f == (|l: Result<HistoryRecord, HistoryError>| l->Ok_0@),
                forall|j: int| 0 <= j < done ==> (#[trigger] all[j]) is Ok,
                store.rows() == all_stored(seq![], all.map_values(f).take(done)),
                store.file() == path@,
                store.capacity() == reservoir_size,
                store.fallback() == default_duration,
            decreases back@.len(),
        {
            let ghost back0 = back@;
            if let Some(l) = back.pop() {
                proof {
                    assert(l == back0.reverse()[0]);
                    assert(l == all[done]);
                    assert(back@.reverse() =~= back0.reverse().skip(1));
                    assert(all.skip(done).skip(1) =~= all.skip(done + 1));
                }
                match l {
                    Ok(record) => {
                        proof {
                            let now = all.map_values(f).take(done + 1);
                            assert(now.drop_last() =~= all.map_values(f).take(done));
                            assert(now.last() == record@);
                        }
                        store.insert(record);
                        proof {
                            done = done + 1;
                        }
                    },
                    Err(e) => {
                        proof {
                            assert(all[done] == Err::<HistoryRecord, HistoryError>(e));
                        }
                        return Err(e);
                    },
                }
            }
        }
        proof {
            assert(all.map_values(f).take(done) =~= all.map_values(f));
            laws::loading_keeps_keys_unique(seq![], all.map_values(f));
        }
        Ok(store)
    }

    /// Stores a record in place of the one with its key.
    pub fn insert(&mut self, r: HistoryRecord)
        ensures
            old(self).wf() ==> final(self).wf(),
            final(self).rows() == stored(old(self).rows(), r@),
            final(self).file() == old(self).file(),
            final(self).capacity() == old(self).capacity(),
            final(self).fallback() == old(self).fallback(),
    {
        let ghost before = self.rows();
        let i: usize = self.find(r.key.0.as_str(), r.key.1.as_str());
        if i < self.records.len() {
            self.records.set(i, r);
            proof {
                assert(self.rows() =~= before.update(i as int, r@));
            }
        } else {
            self.records.push(r);
            proof {
                assert(self.rows() =~= before.push(r@));
            }
        }
        proof {
            if unique_keys(before) {
                laws::storing_keeps_keys_unique(before, r@);
            }
        }
    }

    /// Index of the record for a test; the number of records where there is
    /// none.
    fn find(&self, config: &str, test_id: &str) -> (i: usize)
        ensures
            i == position(self.rows(), config@, test_id@),
            i <= self.rows().len(),
    {
        let ghost rows = self.rows();
        let mut i: usize = 0;
        proof {
            assert(rows.skip(0) =~= rows);
        }
        while i < self.records.len()
            invariant
                0 <= i <= self.records@.len(),
                rows == self.rows(),
                i + position(rows.skip(i as int), config@, test_id@) == position(
                    rows,
                    config@,
                    test_id@,
                ),
            decreases self.records@.len() - i,
        {
            let r = &self.records[i];
            proof {
                assert(rows.skip(i as int)[0] == r@);
                assert(rows.skip(i as int).skip(1) =~= rows.skip(i + 1));
            }
            if text::same(r.key.0.as_str(), config) && text::same(r.key.1.as_str(), test_id) {
                return i;
            }
            i += 1;
        }
        i
    }

    /// Number of records.
    pub fn len(&self) -> (n: usize)
        ensures
            n == self.rows().len(),
    {
        self.records.len()
    }

    /// Path of the file that the store is saved to.
    pub fn path(&self) -> (r: &str)
        ensures
            r@ == self.file(),
    {
        self.path.as_str()
    }

    /// How many samples are kept of each outcome.
    pub fn reservoir_size(&self) -> (r: usize)
        ensures
            r == self.capacity(),
    {
        self.reservoir_size
    }

    /// The records in the order in which they are saved: by configuration and
    /// test id.
    pub fn sorted_records(&self) -> (r: Vec<HistoryRecord>)
        ensures
            record::record_views(r@) == ranking::ranked(self.rows(), by_key()),
    {
        let mut copy: Vec<HistoryRecord> = Vec::new();
        let mut i: usize = 0;
        while i < self.records.len()
            invariant
                0 <= i <= self.records@.len(),
                copy@.len() == i,
                forall|j: int| 0 <= j < i ==> (#[trigger] copy@[j])@ == self.records@[j]@,
            decreases self.records@.len() - i,
        {
            copy.push(self.records[i].clone());
            i += 1;
        }
        proof {
            let f = |r: HistoryRecord| r@;
            assert(record::record_views(copy@) =~= self.rows());
            ranking::ranked_of_images(
                copy@,
                ranking::rank_order::<HistoryRecord>(),
                f,
                by_key(),
            );
        }
        ranking::sort_by_rank(copy)
    }

    /// Statistics of a test; `None` if nothing was recorded of it.
    pub fn get_stats(&self, config: &str, test_id: &str) -> (r: Option<TestStatistics>)
        ensures
            ({
                let i = position(self.rows(), config@, test_id@);
                match r {
                    Some(stats) => i < self.rows().len() && stats@ == stats_of(self.rows()[i]),
                    None => i == self.rows().len(),
                }
            }),
    {
        let i: usize = self.find(config, test_id);
        if i < self.records.len() {
            Some(statistics(&self.records[i]))
        } else {
            None
        }
    }

    /// Statistics of all tests of a configuration.
    pub fn get_all_stats(&self, config: &str) -> (r: Vec<TestStatistics>)
        ensures
            stats_views(r@) == all_stats(self.rows(), config@),
    {
        let ghost rows = self.rows();
        let ghost f = |r: RecordView| stats_of(r);
        let mut out: Vec<TestStatistics> = Vec::new();
        let mut i: usize = 0;
        proof {
            reveal(Seq::filter);
            assert(stats_views(out@) =~= all_stats(rows.take(0), config@));
        }
        while i < self.records.len()
            invariant
                0 <= i <= self.records@.len(),
                rows == self.rows(),
                f == (|r: RecordView| stats_of(r)),
                stats_views(out@) == all_stats(rows.take(i as int), config@),
            decreases self.records@.len() - i,
        {
            let r = &self.records[i];
            let ghost seen = rows.take(i as int);
            let ghost before = out@;
            proof {
                assert(rows.take(i + 1) =~= seen.push(r@));
                ranking::lemma_filter_push(seen, r@, of_config(config@));
            }
            if text::same(r.key.0.as_str(), config) {
                out.push(statistics(r));
                proof {
                    let own = seen.filter(of_config(config@));
                    assert(own.push(r@).map_values(f) =~= own.map_values(f).push(stats_of(r@)));
                    assert(stats_views(out@) =~= stats_views(before).push(stats_of(r@)));
                }
            }
            i += 1;
        }
        proof {
            assert(rows.take(i as int) =~= rows);
        }
        out
    }

    /// The tests of a configuration that fail most often, at most `limit`.
    pub fn flakiest_tests(&self, config: &str, limit: usize) -> (r: Vec<TestStatistics>)
        ensures
            stats_views(r@) == at_most(
                ranking::ranked(all_stats(self.rows(), config@), flakier()),
                limit as nat,
            ),
    {
        top_listed::<ByFailureRate>(&self.get_all_stats(config), limit)
    }

    /// The tests of a configuration that take longest when they pass, at most
    /// `limit`.
    pub fn slowest_tests(&self, config: &str, limit: usize) -> (r: Vec<TestStatistics>)
        ensures
            stats_views(r@) == at_most(
                ranking::ranked(all_stats(self.rows(), config@), slower()),
                limit as nat,
            ),
    {
        top_listed::<ByMedian>(&self.get_all_stats(config), limit)
    }

    /// Id of the latest run of a configuration; `None` if it has no records.
    fn latest_run_of(&self, config: &str) -> (r: Option<String>)
        ensures
            match r {
                Some(run) => latest_run(self.rows().filter(of_config(config@))) == Some(run@),
                None => latest_run(self.rows().filter(of_config(config@))) is None,
            },
    {
        let ghost rows = self.rows();
        let mut best: Option<String> = None;
        let mut i: usize = 0;
        proof {
            reveal(Seq::filter);
            assert(rows.take(0).filter(of_config(config@)) =~= Seq::<RecordView>::empty());
        }
        while i < self.records.len()
            invariant
                0 <= i <= self.records@.len(),
                rows == self.rows(),
                match best {
                    Some(run) => latest_run(rows.take(i as int).filter(of_config(config@)))
                        == Some(run@),
                    None => latest_run(rows.take(i as int).filter(of_config(config@))) is None,
                },
            decreases self.records@.len() - i,
        {
            let r = &self.records[i];
            let ghost seen = rows.take(i as int);
            proof {
                assert(rows.take(i + 1) =~= seen.push(r@));
                ranking::lemma_filter_push(seen, r@, of_config(config@));
                let own = seen.filter(of_config(config@));
                assert(own.push(r@).drop_last() =~= own);
            }
            if text::same(r.key.0.as_str(), config) {
                let later = match &best {
                    Some(run) => text::text_precedes(run.as_str(), r.values.last_run.as_str()),
                    None => true,
                };
                if later {
                    best = Some(r.values.last_run.clone());
                }
            }
            i += 1;
        }
        proof {
            assert(rows.take(i as int) =~= rows);
        }
        best
    }

    /// Ids of the tests of a configuration that failed in its latest run.
    pub fn last_run_failures(&self, config: &str) -> (r: Vec<String>)
        ensures
            text::views(r@) == latest_failures(self.rows(), config@),
    {
        let ghost rows = self.rows();
        let ghost own = of_config(config@);
        let mut out: Vec<String> = Vec::new();
        let latest = match self.latest_run_of(config) {
            Some(run) => run,
            None => {
                proof {
                    assert(text::views(out@) =~= seq![]);
                }
                return out;
            },
        };
        let ghost hit = |r: RecordView| failed_in(r, latest@);
        let ghost f = |r: RecordView| r.test_id;
        let mut i: usize = 0;
        proof {
            reveal(Seq::filter);
            assert(rows.take(0).filter(own) =~= Seq::<RecordView>::empty());
            assert(rows.take(0).filter(own).filter(hit) =~= Seq::<RecordView>::empty());
            assert(text::views(out@) =~= rows.take(0).filter(own).filter(hit).map_values(f));
        }
        while i < self.records.len()
            invariant
                0 <= i <= self.records@.len(),
                rows == self.rows(),
                own == of_config(config@),
                hit == (|r: RecordView| failed_in(r, latest@)),
                f == (|r: RecordView| r.test_id),
                text::views(out@) == rows.take(i as int).filter(own).filter(hit).map_values(f),
            decreases self.records@.len() - i,
        {
            let r = &self.records[i];
            let ghost seen = rows.take(i as int);
            let ghost before = out@;
            proof {
                assert(rows.take(i + 1) =~= seen.push(r@));
                ranking::lemma_filter_push(seen, r@, own);
                ranking::lemma_filter_push(seen.filter(own), r@, hit);
            }
            if text::same(r.key.0.as_str(), config) && has_run(&r.values.fail, latest.as_str()) {
                out.push(r.key.1.clone());
                proof {
                    let kept = seen.filter(own).filter(hit);
                    assert(kept.push(r@).map_values(f) =~= kept.map_values(f).push(r@.test_id));
                    assert(text::views(out@) =~= text::views(before).push(r@.test_id));
                }
            }
            i += 1;
        }
        proof {
            assert(rows.take(i as int) =~= rows);
        }
        out
    }

    /// The duration to expect of a test.
    pub fn expected_duration(&self, config: &str, test_id: &str) -> (r: DurationEstimate)
        ensures
            r@ == estimate(self.rows(), config@, test_id@, self.fallback()),
    {
        if let Some(stats) = self.get_stats(config, test_id) {
            match (stats.duration.success, stats.duration.failure) {
                (Some(ok), Some(fail)) => {
                    return DurationEstimate::Weighted {
                        ok: ok.p75,
                        fail: fail.p75,
                        rate: stats.failure_rate,
                    };
                },
                (Some(ok), None) => {
                    return DurationEstimate::Single(ok.p75);
                },
                (None, Some(fail)) => {
                    return DurationEstimate::Single(fail.p75);
                },
                (None, None) => {},
            }
        }
        let stats = self.get_all_stats(config);
        let ghost views = stats_views(stats@);
        let ghost p = |s: StatsView| s.duration.success is Some;
        let ghost f = |s: StatsView| s.duration.success->0.p75;
        let mut known: Vec<u64> = Vec::new();
        let mut i: usize = 0;
        proof {
            reveal(Seq::filter);
            assert(views.take(0).filter(p) =~= Seq::<StatsView>::empty());
            assert(known@ =~= views.take(0).filter(p).map_values(f));
        }
        while i < stats.len()
            invariant
                0 <= i <= stats@.len(),
                views == stats_views(stats@),
                p == (|s: StatsView| s.duration.success is Some),
                f == (|s: StatsView| s.duration.success->0.p75),
                known@ == views.take(i as int).filter(p).map_values(f),
            decreases stats@.len() - i,
        {
            let ghost seen = views.take(i as int);
            let ghost s = stats@[i as int]@;
            proof {
                assert(views.take(i + 1) =~= seen.push(s));
                ranking::lemma_filter_push(seen, s, p);
            }
            if let Some(d) = stats[i].duration.success {
                let ghost before = known@;
                known.push(d.p75);
                proof {
                    let kept = seen.filter(p);
                    assert(kept.push(s).map_values(f) =~= kept.map_values(f).push(d.p75));
                }
            }
            i += 1;
        }
        proof {
            assert(views.take(i as int) =~= views);
        }
        if known.len() > 0 {
            DurationEstimate::Average(known)
        } else {
            DurationEstimate::Single(self.default_duration)
        }
    }

    /// Durations to expect of all tests of a configuration, by test id.
    pub fn get_scheduling_durations(&self, config: &str) -> (r: Vec<(String, DurationEstimate)>)
        ensures
            r@.map_values(|e: (String, DurationEstimate)| (e.0@, e.1@)) == scheduling_durations(
                self.rows(),
                config@,
                self.fallback(),
            ),
    {
        let ghost rows = self.rows();
        let ghost own = of_config(config@);
        let ghost f = |r: RecordView|
            (r.test_id, estimate(rows, config@, r.test_id, self.fallback()));
        let ghost g = |e: (String, DurationEstimate)| (e.0@, e.1@);
        let mut out: Vec<(String, DurationEstimate)> = Vec::new();
        let mut i: usize = 0;
        proof {
            reveal(Seq::filter);
            assert(rows.take(0).filter(own) =~= Seq::<RecordView>::empty());
            assert(out@.map_values(g) =~= rows.take(0).filter(own).map_values(f));
        }
        while i < self.records.len()
            invariant
                0 <= i <= self.records@.len(),
                rows == self.rows(),
                own == of_config(config@),
                f == (|r: RecordView|
                    (r.test_id, estimate(rows, config@, r.test_id, self.fallback()))),
                g == (|e: (String, DurationEstimate)| (e.0@, e.1@)),
                out@.map_values(g) == rows.take(i as int).filter(own).map_values(f),
            decreases self.records@.len() - i,
        {
            let r = &self.records[i];
            let ghost seen = rows.take(i as int);
            let ghost before = out@;
            proof {
                assert(rows.take(i + 1) =~= seen.push(r@));
                ranking::lemma_filter_push(seen, r@, own);
            }
            if text::same(r.key.0.as_str(), config) {
                let d = self.expected_duration(config, r.key.1.as_str());
                out.push((r.key.1.clone(), d));
                proof {
                    let kept = seen.filter(own);
                    assert(kept.push(r@).map_values(f) =~= kept.map_values(f).push(f(r@)));
                    assert(out@.map_values(g) =~= before.map_values(g).push(f(r@)));
                }
            }
            i += 1;
        }
        proof {
            assert(rows.take(i as int) =~= rows);
        }
        out
    }

    /// Whether every counter has room for the results.
    pub fn has_room(&self, results: &[TestAttemptResult]) -> (r: bool)
        ensures
            r == room_for(self.rows(), attempt_views(results@)),
    {
        let ghost rows = self.rows();
        let ghost attempts = attempt_views(results@);
        let mut i: usize = 0;
        while i < self.records.len()
            invariant
                0 <= i <= self.records@.len(),
                rows == self.rows(),
                attempts == attempt_views(results@),
                forall|j: int|
                    0 <= j < i ==> (#[trigger] rows[j]).attempts + results_for(
                        attempts,
                        rows[j].config,
                        rows[j].test_id,
                    ) <= u64::MAX && rows[j].failures + failed_results_for(
                        attempts,
                        rows[j].config,
                        rows[j].test_id,
                    ) <= u64::MAX,
            decreases self.records@.len() - i,
        {
            let r = &self.records[i];
            let (total, failed) = count_results(results, r.key.0.as_str(), r.key.1.as_str());
            proof {
                assert(rows[i as int] == r@);
            }
            if r.values.total_attempts > u64::MAX - total || r.values.total_failures > u64::MAX
                - failed {
                return false;
            }
            i += 1;
        }
        true
    }

    /// How many samples a reservoir can hold at most while the results are
    /// recorded. With one draw more than that for each result, every sample
    /// that is offered has its draw.
    pub fn largest_reservoir(&self, results: &[TestAttemptResult]) -> (r: usize)
        ensures
            r == grown(longest(self.rows()), results@.len(), self.capacity()),
            forall|draws: Seq<Seq<u64>>, k: int|
                0 <= k < results@.len() && draws_for(draws, k).len() > r ==> offered_count(
                    #[trigger] all_recorded(
                        self.rows(),
                        attempt_views(results@).take(k),
                        draws,
                        self.capacity(),
                    ),
                    attempt_views(results@)[k],
                ) <= draws_for(draws, k).len(),
    {
        let ghost rows = self.rows();
        let mut size: usize = 0;
        let mut i: usize = 0;
        while i < self.records.len()
            invariant
                0 <= i <= self.records@.len(),
                rows == self.rows(),
                size == longest(rows.take(i as int)),
            decreases self.records@.len() - i,
        {
            let v = &self.records[i].values;
            if size < v.ok.len() {
                size = v.ok.len();
            }
            if size < v.fail.len() {
                size = v.fail.len();
            }
            i += 1;
            proof {
                assert(rows.take(i as int).drop_last() =~= rows.take(i - 1));
                assert(rows.take(i as int).last() == self.records@[i - 1]@);
            }
        }
        let most: usize = if self.reservoir_size <= size {
            size
        } else if self.reservoir_size - size <= results.len() {
            self.reservoir_size
        } else {
            size + results.len()
        };
        proof {
            assert(rows.take(i as int) =~= rows);
            lemma_longest(rows);
            let attempts = attempt_views(results@);
            assert forall|draws: Seq<Seq<u64>>, k: int|
                0 <= k < results@.len() && draws_for(draws, k).len() > most implies offered_count(
                #[trigger] all_recorded(rows, attempts.take(k), draws, self.capacity()),
                attempts[k],
            ) <= draws_for(draws, k).len() by {
                let now = all_recorded(rows, attempts.take(k), draws, self.capacity());
                lemma_reservoirs_grow(
                    rows,
                    attempts.take(k),
                    draws,
                    self.capacity(),
                    longest(rows),
                );
                lemma_position(now, attempts[k].config, attempts[k].test_id);
            }
        }
        most
    }

    /// Records the results of test attempts.
    ///
    /// The `i`-th element of `draws` holds the random numbers for the samples
    /// offered when the `i`-th result goes into its reservoir; a missing number
    /// counts as 0, and [`largest_reservoir`](Self::largest_reservoir) tells how
    /// many are needed.
    pub fn record_results(
        &mut self,
        results: &[TestAttemptResult],
        draws: &[Vec<u64>],
    ) -> (r: Result<(), HistoryError>)
        requires
            room_for(old(self).rows(), attempt_views(results@)),
        ensures
            r is Ok,
            old(self).wf() ==> final(self).wf(),
            final(self).rows() == all_recorded(
                old(self).rows(),
                attempt_views(results@),
                draw_views(draws@),
                old(self).capacity(),
            ),
            final(self).file() == old(self).file(),
            final(self).capacity() == old(self).capacity(),
            final(self).fallback() == old(self).fallback(),
    {
        let ghost rows0 = self.rows();
        let ghost attempts = attempt_views(results@);
        let ghost all_draws = draw_views(draws@);
        let n: usize = results.len();
        let mut i: usize = 0;
        proof {
            assert(attempts.take(0) =~= seq![]);
        }
        while i < n
            invariant
                0 <= i <= results@.len(),
                n == results@.len(),
                attempts == attempt_views(results@),
                all_draws == draw_views(draws@),
                self.rows() == all_recorded(
                    rows0,
                    attempts.take(i as int),
                    all_draws,
                    self.capacity(),
                ),
                rows0 == old(self).rows(),
                room_for(rows0, attempts),
                self.file() == old(self).file(),
                self.capacity() == old(self).capacity(),
                self.fallback() == old(self).fallback(),
            decreases results@.len() - i,
        {
            let a = &results[i];
            proof {
                assert(attempts.take(i + 1).drop_last() =~= attempts.take(i as int));
                assert(attempts.take(i + 1).last() == a@);
                lemma_room_is_left(rows0, attempts, all_draws, self.capacity(), i as int);
            }
            if i < draws.len() {
                proof {
                    assert(draws_for(all_draws, i as int) == draws@[i as int]@);
                }
                self.record(a, draws[i].as_slice());
            } else {
                let none: Vec<u64> = Vec::new();
                proof {
                    assert(draws_for(all_draws, i as int) =~= none@);
                }
                self.record(a, none.as_slice());
            }
            i += 1;
        }
        proof {
            assert(attempts.take(i as int) =~= attempts);
            if unique_keys(rows0) {
                laws::recording_keeps_keys_unique(rows0, attempts, all_draws, self.capacity());
            }
        }
        Ok(())
    }

    /// Records the result of one attempt.
    fn record(&mut self, a: &TestAttemptResult, draws: &[u64])
        requires
            counts_on(old(self).rows(), a@),
        ensures
            final(self).rows() == recorded(
                old(self).rows(),
                a@,
                draws@,
                old(self).capacity(),
            ),
            final(self).file() == old(self).file(),
            final(self).capacity() == old(self).capacity(),
            final(self).fallback() == old(self).fallback(),
    {
        let ghost before = self.rows();
        let i: usize = self.find(a.config.as_str(), a.test_id.as_str());
        if i == self.records.len() {
            let fresh = HistoryRecord {
                key: (a.config.clone(), a.test_id.clone()),
                values: TestValues {
                    total_attempts: 0,
                    total_failures: 0,
                    last_run: String::new(),
                    ok: Vec::new(),
                    fail: Vec::new(),
                },
            };
            proof {
                assert(fresh@ =~= blank_record(a@.config, a@.test_id));
            }
            self.records.push(fresh);
        }
        let ghost grown = self.rows();
        let ghost old_row = grown[i as int];
        proof {
            if i < before.len() {
                assert(grown =~= before);
            } else {
                assert(grown =~= before.push(blank_record(a@.config, a@.test_id)));
            }
            assert(old_row == self.records@[i as int]@);
        }
        let capacity: usize = self.reservoir_size;
        let sample = CompactSample {
            run_id: a.run_id.clone(),
            timestamp_ms: a.timestamp_ms,
            duration: a.duration,
        };
        proof {
            assert(sample@ == a@.sample);
        }
        let r = &mut self.records[i];
        r.values.total_attempts = r.values.total_attempts + 1;
        if !a.passed {
            r.values.total_failures = r.values.total_failures + 1;
        }
        r.values.last_run = a.run_id.clone();
        if a.passed {
            r.values.ok = reservoir::resample(&r.values.ok, sample, draws, capacity);
        } else {
            r.values.fail = reservoir::resample(&r.values.fail, sample, draws, capacity);
        }
        proof {
            let new_row = updated(old_row, a@, draws@, self.capacity());
            assert(self.records@[i as int]@ =~= new_row);
            assert(self.rows() =~= grown.update(i as int, new_row));
            assert(self.rows() =~= recorded(before, a@, draws@, self.capacity()));
        }
    }
}

/// Number of results for a test, and of failed ones.
fn count_results(results: &[TestAttemptResult], config: &str, test_id: &str) -> (r: (u64, u64))
    ensures
        r.0 == results_for(attempt_views(results@), config@, test_id@),
        r.1 == failed_results_for(attempt_views(results@), config@, test_id@),
{
    let ghost attempts = attempt_views(results@);
    let mut total: u64 = 0;
    let mut failed: u64 = 0;
    let mut i: usize = 0;
    while i < results.len()
        invariant
            0 <= i <= results@.len(),
            attempts == attempt_views(results@),
            failed <= total <= i,
            total == results_for(attempts.take(i as int), config@, test_id@),
            failed == failed_results_for(attempts.take(i as int), config@, test_id@),
        decreases results@.len() - i,
    {
        let a = &results[i];
        proof {
            assert(attempts.take(i + 1).drop_last() =~= attempts.take(i as int));
            assert(attempts.take(i + 1).last() == a@);
        }
        if text::same(a.config.as_str(), config) && text::same(a.test_id.as_str(), test_id) {
            total = total + 1;
            if !a.passed {
                failed = failed + 1;
            }
        }
        i += 1;
    }
    proof {
        assert(attempts.take(i as int) =~= attempts);
    }
    (total, failed)
}

/// Whether a sample of the run is among the samples.
fn has_run(samples: &Vec<CompactSample>, run: &str) -> (r: bool)
    ensures
        r == sampled_in(record::sample_views(samples@), run@),
{
    let ghost views = record::sample_views(samples@);
    let mut i: usize = 0;
    while i < samples.len()
        invariant
            0 <= i <= samples@.len(),
            views == record::sample_views(samples@),
            forall|j: int| 0 <= j < i ==> (#[trigger] views[j]).run_id != run@,
        decreases samples@.len() - i,
    {
        proof {
            assert(views[i as int] == samples@[i as int]@);
        }
        if text::same(samples[i].run_id.as_str(), run) {
            return true;
        }
        i += 1;
    }
    false
}

/// Views of statistics, in order.
pub open spec fn stats_views(stats: Seq<TestStatistics>) -> Seq<StatsView> {
    stats.map_values(|s: TestStatistics| s@)
}

/// Views of results, in order.
pub open spec fn attempt_views(results: Seq<TestAttemptResult>) -> Seq<AttemptView> {
    results.map_values(|r: TestAttemptResult| r@)
}

/// The draws for each result.
pub open spec fn draw_views(draws: Seq<Vec<u64>>) -> Seq<Seq<u64>> {
    draws.map_values(|d: Vec<u64>| d@)
}

/// Each test of a configuration with the duration to expect of it.
pub open spec fn scheduling_durations(
    rows: Seq<RecordView>,
    config: Seq<char>,
    default: u64,
) -> Seq<(Seq<char>, EstimateView)> {
    rows.filter(of_config(config)).map_values(
        |r: RecordView| (r.test_id, estimate(rows, config, r.test_id, default)),
    )
}

/// Whether a line of a history file holds no record: nothing but white space.
pub fn is_blank_line(line: &str) -> (r: bool)
    ensures
        r == (text::trimmed(line@).len() == 0),
{
    let rest = text::chars_of(text::trim_text(line).as_str());
    rest.len() == 0
}

} // verus!
