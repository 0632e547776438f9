//! History records, the results that go into them and the statistics drawn
//! from them.
//!
//! A duration is held as its key: a number by which durations are ordered and
//! from which the duration can be recovered. A longer duration has a larger
//! key, and the key of zero seconds is [`ZERO_DURATION`].

use vstd::prelude::*;

verus! {

/// Key of the duration of zero seconds.
pub const ZERO_DURATION: u64 = 0x8000_0000_0000_0000;

/// One sampled run of a test.
pub struct CompactSample {
    pub run_id: String,
    pub timestamp_ms: u64,
    /// Key of the duration.
    pub duration: u64,
}

/// What a sample holds.
#[verifier::ext_equal]
pub struct SampleView {
    pub run_id: Seq<char>,
    pub timestamp_ms: u64,
    pub duration: u64,
}

impl View for CompactSample {
    type V = SampleView;

    open spec fn view(&self) -> SampleView {
        SampleView {
            run_id: self.run_id@,
            timestamp_ms: self.timestamp_ms,
            duration: self.duration,
        }
    }
}

impl Clone for CompactSample {
    fn clone(&self) -> (r: Self)
        ensures
            r@ == self@,
    {
        CompactSample {
            run_id: self.run_id.clone(),
            timestamp_ms: self.timestamp_ms,
            duration: self.duration,
        }
    }
}

/// Views of samples, in order.
pub open spec fn sample_views(samples: Seq<CompactSample>) -> Seq<SampleView> {
    samples.map_values(|s: CompactSample| s@)
}

/// A copy of the samples.
pub fn copy_samples(samples: &Vec<CompactSample>) -> (r: Vec<CompactSample>)
    ensures
        sample_views(r@) == sample_views(samples@),
{
    let mut out: Vec<CompactSample> = Vec::new();
    let mut i: usize = 0;
    while i < samples.len()
        invariant
            0 <= i <= samples@.len(),
            sample_views(out@) == sample_views(samples@.take(i as int)),
        decreases samples@.len() - i,
    {
        let ghost before = out@;
        out.push(samples[i].clone());
        i += 1;
        proof {
            assert(samples@.take(i as int) =~= samples@.take(i - 1).push(samples@[i - 1]));
            assert(sample_views(out@) =~= sample_views(before).push(samples@[i - 1]@));
            assert(sample_views(samples@.take(i as int)) =~= sample_views(
                samples@.take(i - 1),
            ).push(samples@[i - 1]@));
        }
    }
    proof {
        assert(samples@.take(i as int) =~= samples@);
    }
    out
}

/// Counters and samples of one test.
pub struct TestValues {
    pub total_attempts: u64,
    pub total_failures: u64,
    /// Id of the run that was recorded last.
    pub last_run: String,
    /// Samples of runs that passed.
    pub ok: Vec<CompactSample>,
    /// Samples of runs that failed.
    pub fail: Vec<CompactSample>,
}

/// History of one test under one configuration.
pub struct HistoryRecord {
    /// Configuration and test id.
    pub key: (String, String),
    pub values: TestValues,
}

/// What a history record holds.
#[verifier::ext_equal]
pub struct RecordView {
    pub config: Seq<char>,
    pub test_id: Seq<char>,
    pub attempts: nat,
    pub failures: nat,
    pub last_run: Seq<char>,
    pub ok: Seq<SampleView>,
    pub fail: Seq<SampleView>,
}

impl View for HistoryRecord {
    type V = RecordView;

    open spec fn view(&self) -> RecordView {
        RecordView {
            config: self.key.0@,
            test_id: self.key.1@,
            attempts: self.values.total_attempts as nat,
            failures: self.values.total_failures as nat,
            last_run: self.values.last_run@,
            ok: sample_views(self.values.ok@),
            fail: sample_views(self.values.fail@),
        }
    }
}

impl Clone for HistoryRecord {
    fn clone(&self) -> (r: Self)
        ensures
            r@ == self@,
    {
        HistoryRecord {
            key: (self.key.0.clone(), self.key.1.clone()),
            values: TestValues {
                total_attempts: self.values.total_attempts,
                total_failures: self.values.total_failures,
                last_run: self.values.last_run.clone(),
                ok: copy_samples(&self.values.ok),
                fail: copy_samples(&self.values.fail),
            },
        }
    }
}

/// Views of records, in order.
pub open spec fn record_views(records: Seq<HistoryRecord>) -> Seq<RecordView> {
    records.map_values(|r: HistoryRecord| r@)
}

/// The result of one attempt at a test.
pub struct TestAttemptResult {
    pub config: String,
    pub test_id: String,
    pub run_id: String,
    pub passed: bool,
    /// Key of the duration.
    pub duration: u64,
    pub timestamp_ms: u64,
}

/// What the result of an attempt holds.
#[verifier::ext_equal]
pub struct AttemptView {
    pub config: Seq<char>,
    pub test_id: Seq<char>,
    pub passed: bool,
    pub sample: SampleView,
}

impl View for TestAttemptResult {
    type V = AttemptView;

    open spec fn view(&self) -> AttemptView {
        AttemptView {
            config: self.config@,
            test_id: self.test_id@,
            passed: self.passed,
            sample: SampleView {
                run_id: self.run_id@,
                timestamp_ms: self.timestamp_ms,
                duration: self.duration,
            },
        }
    }
}

/// Keys of duration percentiles.
#[derive(Clone, Copy, Debug, PartialEq, Eq)]
pub struct DurationStats {
    pub p50: u64,
    pub p75: u64,
    pub p90: u64,
    pub p95: u64,
}

/// Percentiles by outcome, where there are enough samples.
#[derive(Clone, Copy, Debug, PartialEq, Eq)]
pub struct OutcomeStats {
    pub success: Option<DurationStats>,
    pub failure: Option<DurationStats>,
}

/// The share of attempts that failed; zero where nothing was attempted.
#[derive(Clone, Copy, Debug, PartialEq, Eq)]
pub struct FailureRate {
    pub failures: u64,
    pub attempts: u64,
}

/// Statistics of one test under one configuration.
#[derive(Debug)]
pub struct TestStatistics {
    pub test_id: String,
    pub config: String,
    pub total_attempts: u64,
    pub total_failures: u64,
    pub failure_rate: FailureRate,
    pub duration: OutcomeStats,
    /// Newest timestamp among the samples; 0 without samples.
    pub last_attempt_ms: u64,
    pub last_run_id: String,
}

impl Clone for TestStatistics {
    fn clone(&self) -> (r: Self)
        ensures
            r@ == self@,
    {
        TestStatistics {
            test_id: self.test_id.clone(),
            config: self.config.clone(),
            total_attempts: self.total_attempts,
            total_failures: self.total_failures,
            failure_rate: self.failure_rate,
            duration: self.duration,
            last_attempt_ms: self.last_attempt_ms,
            last_run_id: self.last_run_id.clone(),
        }
    }
}

/// What the statistics of a test hold.
#[verifier::ext_equal]
pub struct StatsView {
    pub test_id: Seq<char>,
    pub config: Seq<char>,
    pub attempts: nat,
    pub failures: nat,
    pub failure_rate: FailureRate,
    pub duration: OutcomeStats,
    pub last_attempt_ms: u64,
    pub last_run_id: Seq<char>,
}

impl View for TestStatistics {
    type V = StatsView;

    open spec fn view(&self) -> StatsView {
        StatsView {
            test_id: self.test_id@,
            config: self.config@,
            attempts: self.total_attempts as nat,
            failures: self.total_failures as nat,
            failure_rate: self.failure_rate,
            duration: self.duration,
            last_attempt_ms: self.last_attempt_ms,
            last_run_id: self.last_run_id@,
        }
    }
}

/// The duration to expect of a test, as the durations it is made of.
#[derive(Debug, PartialEq, Eq)]
pub enum DurationEstimate {
    /// The mean of `ok` and `fail`, weighted by the failure rate.
    Weighted { ok: u64, fail: u64, rate: FailureRate },
    /// One duration.
    Single(u64),
    /// The mean of the durations; there is at least one.
    Average(Vec<u64>),
}

/// What an estimate holds.
#[verifier::ext_equal]
pub enum EstimateView {
    Weighted { ok: u64, fail: u64, rate: FailureRate },
    Single(u64),
    Average(Seq<u64>),
}

impl View for DurationEstimate {
    type V = EstimateView;

    open spec fn view(&self) -> EstimateView {
        match *self {
            DurationEstimate::Weighted { ok, fail, rate } => EstimateView::Weighted {
                ok,
                fail,
                rate,
            },
            DurationEstimate::Single(d) => EstimateView::Single(d),
            DurationEstimate::Average(ds) => EstimateView::Average(ds@),
        }
    }
}

/// What can go wrong when history is read or written.
#[derive(Debug, PartialEq, Eq)]
pub enum HistoryError {
    /// The file could not be read or written.
    Io(String),
    /// A line is not a history record, or a record could not be written down.
    Format(String),
}

} // verus!
