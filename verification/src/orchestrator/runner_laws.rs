//! What holds of every run of a batch.

use crate::framework::TestInstance;
use crate::orchestrator::runner;
use crate::orchestrator::runner::{
    ArtifactReply, ArtifactStage, BatchOutcome, RunEnd, RunFailure, RunReply, RunStage,
};
use crate::orchestrator::schedule_laws;
use crate::orchestrator::scheduler;
use crate::provider::command::OutputLine;
use crate::ranking;
use crate::text;
use vstd::prelude::*;

verus! {

proof fn lemma_decimal_digits(n: nat, i: int)
    requires
        0 <= i < text::decimal(n).len(),
    ensures
        '0' <= text::decimal(n)[i] <= '9',
    decreases n,
{
    if n >= 10 {
        let front = text::decimal(n / 10);
        if i < front.len() {
            lemma_decimal_digits(n / 10, i);
            assert(text::decimal(n)[i] == front[i]);
        } else {
            assert(text::decimal(n)[i] == text::digit(n % 10));
        }
    } else {
        assert(text::decimal(n)[i] == text::digit(n));
    }
}

/// Text, a dash and a number: both can be told from it.
proof fn lemma_dash_and_number(a: Seq<char>, i: nat, b: Seq<char>, j: nat)
    requires
        a + "-"@ + text::decimal(i) == b + "-"@ + text::decimal(j),
    ensures
        a == b,
        i == j,
{
    reveal_strlit("-");
    let d = text::decimal(i);
    let e = text::decimal(j);
    let s = a + "-"@ + d;
    let t = b + "-"@ + e;
    assert(s.len() == a.len() + 1 + d.len());
    assert(t.len() == b.len() + 1 + e.len());
    assert(s[a.len() as int] == '-');
    assert(t[b.len() as int] == '-');
    if a.len() < b.len() {
        let k = b.len() - a.len() - 1;
        assert(s[b.len() as int] == d[k]);
        lemma_decimal_digits(i, k);
        assert(false);
    }
    if b.len() < a.len() {
        let k = a.len() - b.len() - 1;
        assert(t[a.len() as int] == e[k]);
        lemma_decimal_digits(j, k);
        assert(false);
    }
    assert(s.take(a.len() as int) =~= a);
    assert(t.take(b.len() as int) =~= b);
    assert(s.skip(a.len() as int + 1) =~= d);
    assert(t.skip(b.len() as int + 1) =~= e);
    text::decimal_is_injective(i, j);
}

/// Different batches, on one sandbox or on two, have different result files.
pub proof fn result_paths_are_distinct(
    sandbox_a: Seq<char>,
    batch_a: nat,
    sandbox_b: Seq<char>,
    batch_b: nat,
    ext: Seq<char>,
)
    requires
        sandbox_a != sandbox_b || batch_a != batch_b,
    ensures
        runner::result_path(sandbox_a, batch_a, ext) != runner::result_path(
            sandbox_b,
            batch_b,
            ext,
        ),
{
    let p = runner::result_path(sandbox_a, batch_a, ext);
    let q = runner::result_path(sandbox_b, batch_b, ext);
    if p == q {
        let a = sandbox_a + "-"@ + text::decimal(batch_a);
        let b = sandbox_b + "-"@ + text::decimal(batch_b);
        let tail = "."@ + ext;
        let n = "/tmp/"@.len() as int;
        assert(p =~= "/tmp/"@ + a + tail);
        assert(q =~= "/tmp/"@ + b + tail);
        assert(p.subrange(n, p.len() - tail.len()) =~= a);
        assert(q.subrange(n, q.len() - tail.len()) =~= b);
        lemma_dash_and_number(sandbox_a, batch_a, sandbox_b, batch_b);
    }
}

/// Different batches of one sandbox have different archives.
pub proof fn archive_paths_are_distinct(sandbox: Seq<char>, batch_a: nat, batch_b: nat)
    requires
        batch_a != batch_b,
    ensures
        runner::archive_path(sandbox, batch_a) != runner::archive_path(sandbox, batch_b),
{
    let p = runner::archive_path(sandbox, batch_a);
    let q = runner::archive_path(sandbox, batch_b);
    if p == q {
        let name = runner::safe_name(sandbox);
        let a = name + "-"@ + text::decimal(batch_a);
        let b = name + "-"@ + text::decimal(batch_b);
        let head = "/tmp/offload-artifacts-"@;
        let tail = ".tar.gz"@;
        let n = head.len() as int;
        assert(p =~= head + a + tail);
        assert(q =~= head + b + tail);
        assert(p.subrange(n, p.len() - tail.len()) =~= a);
        assert(q.subrange(n, q.len() - tail.len()) =~= b);
        lemma_dash_and_number(name, batch_a, name, batch_b);
    }
}

/// An id made safe holds no character that is special in file names, and one
/// that held none is left as it is.
pub proof fn safe_names_hold_no_special_characters(id: Seq<char>)
    ensures
        runner::safe_name(id).len() == id.len(),
        forall|i: int|
            0 <= i < id.len() ==> !runner::unsafe_in_names(#[trigger] runner::safe_name(id)[i]),
        (forall|i: int| 0 <= i < id.len() ==> !runner::unsafe_in_names(#[trigger] id[i]))
            ==> runner::safe_name(id) == id,
{
    if forall|i: int| 0 <= i < id.len() ==> !runner::unsafe_in_names(#[trigger] id[i]) {
        assert(runner::safe_name(id) =~= id);
    }
}

/// What the outside world answers in the course of a run.
pub struct RunAnswers {
    /// What came of executing the command.
    pub executed: RunReply,
    /// Whether the result file was downloaded.
    pub downloaded: bool,
    /// Whether the results report failures, where they could be converted.
    pub converted: Option<bool>,
    /// Number of testsuites in the results.
    pub testsuites: usize,
    /// Whether the ids could be resolved.
    pub resolved: bool,
    /// What the report said to the results.
    pub report: RunReply,
}

/// Whether the answers are answers to what was asked.
pub open spec fn sensible(a: RunAnswers) -> bool {
    &&& a.executed is Completed || a.executed is Cancelled || a.executed is TimedOut || a.executed is NotExecuted
    &&& a.report is Added || a.report is NotAdded || a.report is NoReport
}

/// The answer to a stage.
pub open spec fn answer(stage: RunStage, a: RunAnswers) -> RunReply {
    match stage {
        RunStage::Executing => a.executed,
        RunStage::RecordingTimeout => RunReply::Recorded,
        RunStage::Downloading => if a.downloaded {
            RunReply::Downloaded
        } else {
            RunReply::NothingDownloaded
        },
        RunStage::Converting => match a.converted {
            Some(failures) => RunReply::Converted { failures },
            None => RunReply::NotConverted,
        },
        RunStage::Saving { .. } => RunReply::Saved,
        RunStage::FetchingArtifacts { .. } => RunReply::ArtifactsFetched,
        RunStage::Parsing { .. } => RunReply::Parsed { testsuites: a.testsuites },
        RunStage::Resolving { .. } => if a.resolved {
            RunReply::Resolved
        } else {
            RunReply::NotResolved
        },
        RunStage::Adding { .. } => a.report,
        RunStage::Recording { .. } => RunReply::Recorded,
        RunStage::Finished(_) => RunReply::Recorded,
    }
}

/// The stage after `steps` steps.
pub open spec fn played(
    stage: RunStage,
    a: RunAnswers,
    tests: nat,
    on_failure_only: bool,
    steps: nat,
) -> RunStage
    decreases steps,
{
    if steps == 0 {
        stage
    } else {
        played(
            runner::next_stage(stage, answer(stage, a), tests, on_failure_only),
            a,
            tests,
            on_failure_only,
            (steps - 1) as nat,
        )
    }
}

/// How a run ends, by what was answered.
pub open spec fn end_of(a: RunAnswers, tests: nat) -> RunEnd {
    if a.executed is Cancelled {
        RunEnd::Done(BatchOutcome::Cancelled)
    } else if a.executed is TimedOut {
        if tests == 1 {
            RunEnd::Done(BatchOutcome::Failure)
        } else {
            RunEnd::Failed(RunFailure::TimedOut)
        }
    } else if a.executed is NotExecuted {
        RunEnd::Failed(RunFailure::NotExecuted)
    } else if !a.downloaded {
        RunEnd::Failed(RunFailure::NoResults)
    } else {
        match a.converted {
            None => RunEnd::Failed(RunFailure::BadResults),
            Some(failures) => RunEnd::Done(
                if failures || a.report is NotAdded || (a.testsuites > 0 && !a.resolved) {
                    BatchOutcome::Failure
                } else {
                    BatchOutcome::Success
                },
            ),
        }
    }
}

/// Steps that are left at most.
pub open spec fn steps_left(stage: RunStage) -> nat {
    match stage {
        RunStage::Executing => 9,
        RunStage::RecordingTimeout => 1,
        RunStage::Downloading => 8,
        RunStage::Converting => 7,
        RunStage::Saving { .. } => 6,
        RunStage::FetchingArtifacts { .. } => 5,
        RunStage::Parsing { .. } => 4,
        RunStage::Resolving { .. } => 3,
        RunStage::Adding { .. } => 2,
        RunStage::Recording { .. } => 1,
        RunStage::Finished(_) => 0,
    }
}

/// The outcome of a run whose results were converted; whether something more
/// went wrong with them.
spec fn concluded(failures: bool, trouble: bool) -> RunEnd {
    RunEnd::Done(runner::outcome_of(failures || trouble))
}

/// How a run ends that has come to a stage.
spec fn end_from(stage: RunStage, a: RunAnswers, tests: nat) -> RunEnd {
    let unresolved = !a.resolved;
    let refused = a.report is NotAdded;
    match stage {
        RunStage::Executing => end_of(a, tests),
        RunStage::RecordingTimeout => RunEnd::Done(BatchOutcome::Failure),
        RunStage::Downloading => if a.downloaded {
            end_from_conversion(a)
        } else {
            RunEnd::Failed(RunFailure::NoResults)
        },
        RunStage::Converting => end_from_conversion(a),
        RunStage::Saving { failures } => concluded(
            failures,
            refused || (a.testsuites > 0 && unresolved),
        ),
        RunStage::FetchingArtifacts { failures } => concluded(
            failures,
            refused || (a.testsuites > 0 && unresolved),
        ),
        RunStage::Parsing { failures } => concluded(
            failures,
            refused || (a.testsuites > 0 && unresolved),
        ),
        RunStage::Resolving { failures } => concluded(failures, refused || unresolved),
        RunStage::Adding { failures } => concluded(failures, refused),
        RunStage::Recording { failures } => concluded(failures, false),
        RunStage::Finished(end) => end,
    }
}

/// How a run ends whose results were downloaded.
spec fn end_from_conversion(a: RunAnswers) -> RunEnd {
    match a.converted {
        None => RunEnd::Failed(RunFailure::BadResults),
        Some(failures) => concluded(
            failures,
            a.report is NotAdded || (a.testsuites > 0 && !a.resolved),
        ),
    }
}

proof fn lemma_step_keeps_the_end(
    stage: RunStage,
    a: RunAnswers,
    tests: nat,
    on_failure_only: bool,
)
    requires
        sensible(a),
    ensures
        ({
            let next = runner::next_stage(stage, answer(stage, a), tests, on_failure_only);
            &&& end_from(next, a, tests) == end_from(stage, a, tests)
            &&& steps_left(next) < steps_left(stage) || stage is Finished && next == stage
        }),
{
    let next = runner::next_stage(stage, answer(stage, a), tests, on_failure_only);
    match stage {
        RunStage::Executing => {
            assert(end_from(next, a, tests) == end_of(a, tests));
        },
        RunStage::Converting => {
            assert(end_from(next, a, tests) == end_from_conversion(a));
        },
        RunStage::Resolving { failures } => {
            assert(end_from(next, a, tests) == end_from(stage, a, tests));
        },
        RunStage::Adding { failures } => {
            assert(end_from(next, a, tests) == end_from(stage, a, tests));
        },
        _ => {},
    }
}

proof fn lemma_played(
    stage: RunStage,
    a: RunAnswers,
    tests: nat,
    on_failure_only: bool,
    steps: nat,
)
    requires
        sensible(a),
        steps_left(stage) <= steps,
    ensures
        played(stage, a, tests, on_failure_only, steps) == RunStage::Finished(
            end_from(stage, a, tests),
        ),
    decreases steps,
{
    if steps > 0 {
        lemma_step_keeps_the_end(stage, a, tests, on_failure_only);
        lemma_played(
            runner::next_stage(stage, answer(stage, a), tests, on_failure_only),
            a,
            tests,
            on_failure_only,
            (steps - 1) as nat,
        );
    }
}

/// Every run ends after at most nine steps, as documented: cancelled when it
/// was cancelled; failed when a single test ran out of time, when the results
/// report failures, or when they could not be resolved or added; an error
/// when the command could not be run or several tests ran out of time, or
/// when there are no results or they make no sense; and else successful.
pub proof fn every_run_ends_as_documented(a: RunAnswers, tests: nat, on_failure_only: bool)
    requires
        sensible(a),
    ensures
        played(RunStage::Executing, a, tests, on_failure_only, 9) == RunStage::Finished(
            end_of(a, tests),
        ),
{
    lemma_played(RunStage::Executing, a, tests, on_failure_only, 9);
}

/// A reply either leaves the stage or brings the run closer to its end.
pub proof fn a_run_never_goes_back(
    stage: RunStage,
    reply: RunReply,
    tests: nat,
    on_failure_only: bool,
)
    ensures
        ({
            let next = runner::next_stage(stage, reply, tests, on_failure_only);
            next == stage || steps_left(next) < steps_left(stage)
        }),
{
}

/// The step at which a run with results records its tests.
pub open spec fn recording_step(a: RunAnswers, on_failure_only: bool) -> nat {
    let fetches = !on_failure_only || a.converted == Some(true);
    6 + if fetches {
        1nat
    } else {
        0nat
    } + if a.testsuites > 0 {
        1nat
    } else {
        0nat
    }
}

/// A run whose results are converted, resolved and added to the report records
/// once, right after they were added: all tests of the batch in order, each as
/// passed exactly if the report says so.
pub proof fn a_completed_run_records_every_test(
    a: RunAnswers,
    ids: Seq<Seq<char>>,
    passed: Seq<bool>,
    on_failure_only: bool,
    k: nat,
)
    requires
        a.executed is Completed,
        a.downloaded,
        a.converted is Some,
        a.testsuites == 0 || a.resolved,
        a.report is Added,
        passed.len() == ids.len(),
    ensures
        ({
            let at = recording_step(a, on_failure_only);
            let n = ids.len();
            let stage = played(RunStage::Executing, a, n, on_failure_only, k);
            let before = played(RunStage::Executing, a, n, on_failure_only, (at - 1) as nat);
            &&& before == RunStage::Adding { failures: a.converted->0 }
            &&& if k == at {
                runner::recorded_by(stage, ids, passed) == Seq::new(
                    n,
                    |i: int| (ids[i], passed[i]),
                )
            } else {
                runner::recorded_by(stage, ids, passed).len() == 0
            }
        }),
{
    let n = ids.len();
    let failures = a.converted->0;
    let at = recording_step(a, on_failure_only);
    reveal_with_fuel(played, 10);
    let adding = played(RunStage::Executing, a, n, on_failure_only, (at - 1) as nat);
    assert(adding == RunStage::Adding { failures });
    if k > 9 {
        lemma_played(RunStage::Executing, a, n, on_failure_only, k);
    }
}

/// A single test that ran out of time is recorded once, as not passed; several
/// are not recorded.
pub proof fn a_test_out_of_time_is_recorded_as_failed(
    a: RunAnswers,
    ids: Seq<Seq<char>>,
    passed: Seq<bool>,
    on_failure_only: bool,
    k: nat,
)
    requires
        a.executed is TimedOut,
    ensures
        runner::recorded_by(
            played(RunStage::Executing, a, ids.len(), on_failure_only, k),
            ids,
            passed,
        ) == if k == 1 && ids.len() == 1 {
            seq![(ids[0], false)]
        } else {
            seq![]
        },
{
    reveal_with_fuel(played, 3);
    if k > 2 {
        lemma_played_on(RunStage::Executing, a, ids.len(), on_failure_only, 2, k);
    }
}

proof fn lemma_played_on(
    stage: RunStage,
    a: RunAnswers,
    tests: nat,
    on_failure_only: bool,
    early: nat,
    late: nat,
)
    requires
        early <= late,
        played(stage, a, tests, on_failure_only, early) is Finished,
    ensures
        played(stage, a, tests, on_failure_only, late) == played(
            stage,
            a,
            tests,
            on_failure_only,
            early,
        ),
    decreases late,
{
    if late > 0 {
        let next = runner::next_stage(stage, answer(stage, a), tests, on_failure_only);
        if early > 0 {
            lemma_played_on(
                next,
                a,
                tests,
                on_failure_only,
                (early - 1) as nat,
                (late - 1) as nat,
            );
        } else {
            lemma_played_on(next, a, tests, on_failure_only, 0, (late - 1) as nat);
        }
    }
}

/// Artifacts are fetched for every batch, or only for those with failures,
/// as configured.
pub proof fn artifacts_are_fetched_as_configured(failures: bool, tests: nat, on_failure_only: bool)
    ensures
        runner::next_stage(
            RunStage::Saving { failures },
            RunReply::Saved,
            tests,
            on_failure_only,
        ) is FetchingArtifacts <==> (!on_failure_only || failures),
{
}

/// The stage of downloading artifacts after the replies.
pub open spec fn artifact_stage(replies: Seq<ArtifactReply>) -> ArtifactStage
    decreases replies.len(),
{
    if replies.len() == 0 {
        ArtifactStage::Packing
    } else {
        runner::next_artifact_stage(artifact_stage(replies.drop_last()), replies.last())
    }
}

/// Files are fetched when the archive was packed, downloaded, found not to be
/// empty and extracted, and only then.
pub proof fn artifacts_are_fetched_when_all_goes_well(replies: Seq<ArtifactReply>)
    requires
        replies.len() == 6,
    ensures
        artifact_stage(replies) == (ArtifactStage::Finished { fetched: true }) <==> {
            &&& replies[0] is Good
            &&& replies[1] is Good
            &&& replies[2] is Good
            &&& replies[3] matches ArtifactReply::Size(n) && n > 0
            &&& replies[4] is Good
            &&& replies[5] is Good
        },
{
    let r5 = replies.drop_last();
    let r4 = r5.drop_last();
    let r3 = r4.drop_last();
    let r2 = r3.drop_last();
    let r1 = r2.drop_last();
    let r0 = r1.drop_last();
    assert(artifact_stage(r0) == ArtifactStage::Packing);
    assert(artifact_stage(r1) == runner::next_artifact_stage(artifact_stage(r0), replies[0]));
    assert(artifact_stage(r2) == runner::next_artifact_stage(artifact_stage(r1), replies[1]));
    assert(artifact_stage(r3) == runner::next_artifact_stage(artifact_stage(r2), replies[2]));
    assert(artifact_stage(r4) == runner::next_artifact_stage(artifact_stage(r3), replies[3]));
    assert(artifact_stage(r5) == runner::next_artifact_stage(artifact_stage(r4), replies[4]));
}

proof fn lemma_distinct_ids_have_no_repeats(batch: Seq<TestInstance>)
    requires
        schedule_laws::distinct_ids(batch),
    ensures
        runner::repeated(runner::ids_of(batch)) == Seq::<Seq<char>>::empty(),
    decreases batch.len(),
{
    if batch.len() > 0 {
        let front = batch.drop_last();
        assert forall|i: int, j: int| 0 <= i < j < front.len() implies (#[trigger] front[i]).id@
            != (#[trigger] front[j]).id@ by {
            assert(batch[i].id@ != batch[j].id@);
        }
        lemma_distinct_ids_have_no_repeats(front);
        let ids = runner::ids_of(batch);
        assert(ids.drop_last() =~= runner::ids_of(front));
        if ids.drop_last().contains(ids.last()) {
            let k = choose|k: int|
                0 <= k < ids.drop_last().len() && ids.drop_last()[k] == ids.last();
            assert(batch[k].id@ == batch[batch.len() - 1].id@);
        }
    }
}

/// A batch from the scheduler holds no duplicates, so each of its tests has a
/// result of its own.
pub proof fn scheduled_batches_hold_no_duplicates(
    max_parallel: nat,
    tests: Seq<TestInstance>,
    durations: Map<Seq<char>, u64>,
    group_defaults: Map<Seq<char>, u64>,
    i: int,
)
    requires
        0 <= i < scheduler::schedule(max_parallel, tests, durations, group_defaults).len(),
    ensures
        runner::repeated(
            runner::ids_of(
                scheduler::schedule(max_parallel, tests, durations, group_defaults)[i],
            ),
        ) == Seq::<Seq<char>>::empty(),
{
    schedule_laws::no_batch_repeats_a_test(max_parallel, tests, durations, group_defaults, i);
    lemma_distinct_ids_have_no_repeats(
        scheduler::schedule(max_parallel, tests, durations, group_defaults)[i],
    );
}

/// Standard output collected from lines.
pub open spec fn stdout_of(lines: Seq<OutputLine>) -> Seq<char>
    decreases lines.len(),
{
    if lines.len() == 0 {
        seq![]
    } else {
        runner::stdout_with(stdout_of(lines.drop_last()), lines.last())
    }
}

/// Standard error collected from lines.
pub open spec fn stderr_of(lines: Seq<OutputLine>) -> Seq<char>
    decreases lines.len(),
{
    if lines.len() == 0 {
        seq![]
    } else {
        runner::stderr_with(stderr_of(lines.drop_last()), lines.last())
    }
}

/// Each stream is collected by itself: lines of the other one do not show up
/// in it, however the two are mixed.
pub proof fn streams_are_kept_apart(lines: Seq<OutputLine>)
    ensures
        stdout_of(lines) == stdout_of(lines.filter(|l: OutputLine| l is Stdout)),
        stderr_of(lines) == stderr_of(lines.filter(|l: OutputLine| l is Stderr)),
    decreases lines.len(),
{
    let p = |l: OutputLine| l is Stdout;
    let q = |l: OutputLine| l is Stderr;
    if lines.len() == 0 {
        reveal(Seq::filter);
    } else {
        let front = lines.drop_last();
        let last = lines.last();
        streams_are_kept_apart(front);
        assert(front.push(last) =~= lines);
        ranking::lemma_filter_push(front, last, p);
        ranking::lemma_filter_push(front, last, q);
        assert(front.filter(p).push(last).drop_last() =~= front.filter(p));
        assert(front.filter(q).push(last).drop_last() =~= front.filter(q));
    }
}

/// A JUnit XML text reports failures exactly if somewhere in it a `<` stands
/// directly before `failure` or before `error`; so it does not without a `<`.
pub proof fn failures_are_told_by_their_tags(xml: Seq<char>)
    ensures
        runner::failures_in(xml) <==> exists|i: int|
            0 <= i < xml.len() && #[trigger] xml[i] == '<' && (text::reads_at(
                xml,
                seq!['f', 'a', 'i', 'l', 'u', 'r', 'e'],
                i + 1,
            ) || text::reads_at(xml, seq!['e', 'r', 'r', 'o', 'r'], i + 1)),
        (forall|i: int| 0 <= i < xml.len() ==> #[trigger] xml[i] != '<') ==> !runner::failures_in(
            xml,
        ),
{
    let failure = seq!['f', 'a', 'i', 'l', 'u', 'r', 'e'];
    let error = seq!['e', 'r', 'r', 'o', 'r'];
    reveal_strlit("<failure");
    reveal_strlit("<error");
    assert("<failure"@ =~= seq!['<'] + failure);
    assert("<error"@ =~= seq!['<'] + error);
    lemma_tag_is_read(xml, failure);
    lemma_tag_is_read(xml, error);
    if runner::failures_in(xml) {
        if text::contains(xml, "<failure"@) {
            let i = choose|i: int|
                0 <= i < xml.len() && #[trigger] xml[i] == '<' && text::reads_at(
                    xml,
                    failure,
                    i + 1,
                );
            assert(xml[i] == '<');
        } else {
            let i = choose|i: int|
                0 <= i < xml.len() && #[trigger] xml[i] == '<' && text::reads_at(xml, error, i + 1);
            assert(xml[i] == '<');
        }
    }
}

proof fn lemma_tag_is_read(xml: Seq<char>, name: Seq<char>)
    ensures
        text::contains(xml, seq!['<'] + name) <==> exists|i: int|
            0 <= i < xml.len() && #[trigger] xml[i] == '<' && text::reads_at(xml, name, i + 1),
{
    let tag = seq!['<'] + name;
    text::patterns_occur_where_they_can_be_read(xml, tag);
    if text::contains(xml, tag) {
        let i = choose|i: int| #[trigger] text::reads_at(xml, tag, i);
        assert(tag[0] == xml[i + 0]);
        assert forall|k: int| 0 <= k < name.len() implies #[trigger] name[k] == xml[i + 1 + k] by {
            assert(tag[k + 1] == xml[i + (k + 1)]);
        }
        assert(xml[i] == '<' && text::reads_at(xml, name, i + 1));
    }
    if exists|i: int|
        0 <= i < xml.len() && #[trigger] xml[i] == '<' && text::reads_at(xml, name, i + 1) {
        let i = choose|i: int|
            0 <= i < xml.len() && #[trigger] xml[i] == '<' && text::reads_at(xml, name, i + 1);
        assert forall|k: int| 0 <= k < tag.len() implies #[trigger] tag[k] == xml[i + k] by {
            if k > 0 {
                assert(name[k - 1] == xml[i + 1 + (k - 1)]);
            }
        }
        assert(text::reads_at(xml, tag, i));
    }
}

/// A testcase is counted at each place where its tag is opened and followed by
/// a blank.
pub proof fn testcases_are_counted_by_their_tags(xml: Seq<char>)
    ensures
        runner::testcases_in(xml) == text::places(
            xml,
            seq!['<', 't', 'e', 's', 't', 'c', 'a', 's', 'e', ' '],
            xml.len() as int,
        ),
{
    let tag = seq!['<', 't', 'e', 's', 't', 'c', 'a', 's', 'e', ' '];
    reveal_strlit("<testcase ");
    assert("<testcase "@ =~= tag);
    text::matches_are_counted_by_their_places(xml, tag);
}

/// Characters with a meaning in paths become underscores, at their place, and
/// all others stay.
pub proof fn special_characters_become_underscores(id: Seq<char>, i: int)
    requires
        0 <= i < id.len(),
    ensures
        runner::safe_name(id).len() == id.len(),
        seq!['/', '\\', ':', '*', '?', '"', '<', '>', '|'].contains(id[i]) ==> runner::safe_name(
            id,
        )[i] == '_',
        !seq!['/', '\\', ':', '*', '?', '"', '<', '>', '|'].contains(id[i]) ==> runner::safe_name(
            id,
        )[i] == id[i],
{
    let special = seq!['/', '\\', ':', '*', '?', '"', '<', '>', '|'];
    let c = id[i];
    if special.contains(c) {
        let k = choose|k: int| 0 <= k < special.len() && special[k] == c;
        assert(runner::unsafe_in_names(c));
    }
    if runner::unsafe_in_names(c) {
        assert(special[0] == '/' && special[1] == '\\' && special[2] == ':' && special[3] == '*'
            && special[4] == '?' && special[5] == '"' && special[6] == '<' && special[7] == '>'
            && special[8] == '|');
    }
}

/// An id is a duplicate exactly if it stands at two places of the batch.
pub proof fn duplicates_stand_at_two_places(ids: Seq<Seq<char>>, id: Seq<char>)
    ensures
        runner::repeated(ids).contains(id) <==> exists|i: int, j: int|
            0 <= i < j < ids.len() && #[trigger] ids[i] == id && #[trigger] ids[j] == id,
    decreases ids.len(),
{
    let now = runner::repeated(ids);
    if ids.len() == 0 {
        assert(!now.contains(id));
    } else {
        let front = ids.drop_last();
        let before = runner::repeated(front);
        let n = ids.len() - 1;
        duplicates_stand_at_two_places(front, id);
        if now.contains(id) {
            if before.contains(id) {
                let (i, j) = choose|i: int, j: int|
                    0 <= i < j < front.len() && #[trigger] front[i] == id && #[trigger] front[j]
                        == id;
                assert(ids[i] == id && ids[j] == id);
            } else {
                let x = choose|x: int| 0 <= x < now.len() && now[x] == id;
                if x < before.len() {
                    assert(before[x] == id);
                }
                let i = choose|i: int| 0 <= i < front.len() && front[i] == ids.last();
                assert(ids[i] == id && ids[n] == id);
            }
        }
        if exists|i: int, j: int|
            0 <= i < j < ids.len() && #[trigger] ids[i] == id && #[trigger] ids[j] == id {
            let (i, j) = choose|i: int, j: int|
                0 <= i < j < ids.len() && #[trigger] ids[i] == id && #[trigger] ids[j] == id;
            assert(front[i] == id);
            if j < n {
                assert(front[j] == id);
                let x = choose|x: int| 0 <= x < before.len() && before[x] == id;
                assert(now[x] == id);
            } else {
                assert(now[now.len() - 1] == id);
            }
        }
    }
}

/// A line of a stream is added to it with a line break, and to no other one;
/// an exit code adds nothing.
pub proof fn lines_are_added_to_their_stream(lines: Seq<OutputLine>, line: OutputLine)
    ensures
        match line {
            OutputLine::Stdout(s) => {
                &&& stdout_of(lines.push(line)) == stdout_of(lines) + s@ + seq!['\n']
                &&& stderr_of(lines.push(line)) == stderr_of(lines)
            },
            OutputLine::Stderr(s) => {
                &&& stdout_of(lines.push(line)) == stdout_of(lines)
                &&& stderr_of(lines.push(line)) == stderr_of(lines) + s@ + seq!['\n']
            },
            OutputLine::ExitCode(_) => {
                &&& stdout_of(lines.push(line)) == stdout_of(lines)
                &&& stderr_of(lines.push(line)) == stderr_of(lines)
            },
        },
{
    assert(lines.push(line).drop_last() =~= lines);
    if let OutputLine::Stdout(s) = line {
        assert(stdout_of(lines.push(line)) =~= stdout_of(lines) + s@ + seq!['\n']);
    }
    if let OutputLine::Stderr(s) = line {
        assert(stderr_of(lines.push(line)) =~= stderr_of(lines) + s@ + seq!['\n']);
    }
}

/// A pattern for `find` is the glob itself where it is a path already, and else
/// the glob below the current directory.
pub proof fn globs_are_taken_below_the_current_directory(glob: Seq<char>)
    ensures
        glob.len() >= 1 && glob[0] == '/' ==> runner::find_pattern(glob) == glob,
        glob.len() >= 2 && glob[0] == '.' && glob[1] == '/' ==> runner::find_pattern(glob) == glob,
        !(glob.len() >= 1 && glob[0] == '/') && !(glob.len() >= 2 && glob[0] == '.' && glob[1]
            == '/') ==> runner::find_pattern(glob) == seq!['.', '/'] + glob,
{
    reveal_strlit("./");
    reveal_strlit("/");
    assert("./"@ =~= seq!['.', '/']);
    assert("/"@ =~= seq!['/']);
    text::patterns_occur_where_they_can_be_read(glob, "./"@);
    text::patterns_occur_where_they_can_be_read(glob, "/"@);
    assert(text::occurs_at(glob, "/"@, 0) == text::reads_at(glob, "/"@, 0));
    assert(text::occurs_at(glob, "./"@, 0) == text::reads_at(glob, "./"@, 0));
    if text::reads_at(glob, "/"@, 0) {
        assert("/"@[0] == glob[0]);
    }
    if text::reads_at(glob, "./"@, 0) {
        assert("./"@[0] == glob[0]);
        assert("./"@[1] == glob[1]);
    }
}

/// What does not go well ends the download of artifacts without files, and so
/// does an empty archive; once it has ended nothing changes that.
pub proof fn trouble_ends_the_download(stage: ArtifactStage, reply: ArtifactReply)
    ensures
        stage is Finished ==> runner::next_artifact_stage(stage, reply) == stage,
        !(stage is Finished) && (reply is Bad || reply == ArtifactReply::Size(0))
            ==> runner::next_artifact_stage(stage, reply) == (ArtifactStage::Finished {
            fetched: false,
        }),
{
}

/// A reply that does not belong to a stage changes nothing, and a run that has
/// ended stays as it is.
pub proof fn stray_replies_change_nothing(
    stage: RunStage,
    reply: RunReply,
    tests: nat,
    on_failure_only: bool,
)
    requires
        ({
            ||| stage is Finished
            ||| stage is Executing && !(reply is Completed || reply is Cancelled
                || reply is TimedOut || reply is NotExecuted)
            ||| (stage is RecordingTimeout || stage is Recording) && !(reply is Recorded)
            ||| stage is Downloading && !(reply is Downloaded || reply is NothingDownloaded)
            ||| stage is Converting && !(reply is Converted || reply is NotConverted)
            ||| stage is Saving && !(reply is Saved)
            ||| stage is FetchingArtifacts && !(reply is ArtifactsFetched)
            ||| stage is Parsing && !(reply is Parsed)
            ||| stage is Resolving && !(reply is Resolved || reply is NotResolved)
            ||| stage is Adding && !(reply is Added || reply is NotAdded || reply is NoReport)
        }),
    ensures
        runner::next_stage(stage, reply, tests, on_failure_only) == stage,
{
}

} // verus!
