//! Test runner: what to do with a batch of tests in a single sandbox.

use crate::framework::TestInstance;
use crate::provider::command::{Command, CommandView, ExecResult, OutputLine};
use crate::text;
use vstd::hash_set::StringHashSet;
use vstd::prelude::*;

verus! {

/// Whether a JUnit XML text reports failures or errors.
pub open spec fn failures_in(xml: Seq<char>) -> bool {
    text::contains(xml, "<failure"@) || text::contains(xml, "<error"@)
}

/// Number of testcases in a JUnit XML text.
pub open spec fn testcases_in(xml: Seq<char>) -> nat {
    text::count(xml, "<testcase "@)
}

/// Counts testcases in a JUnit XML string.
pub fn count_testcases_in_xml(xml: &str) -> (r: usize)
    ensures
        r == testcases_in(xml@),
{
    proof {
        reveal_strlit("<testcase ");
    }
    text::count_text(xml, "<testcase ")
}

/// Checks if a JUnit XML string contains any test failures or errors.
pub fn has_failures_in_xml(xml: &str) -> (r: bool)
    ensures
        r == failures_in(xml@),
{
    text::contains_text(xml, "<failure") || text::contains_text(xml, "<error")
}

/// Path of the result file of a batch inside its sandbox.
pub open spec fn result_path(sandbox_id: Seq<char>, batch_idx: nat, ext: Seq<char>) -> Seq<char> {
    "/tmp/"@ + sandbox_id + "-"@ + text::decimal(batch_idx) + "."@ + ext
}

/// Builds the remote path for a batch's JUnit result file.
///
/// A single sandbox runs many batches sequentially, so the path is keyed by
/// both sandbox ID and batch index.
pub fn batch_result_path(sandbox_id: &str, batch_idx: usize, ext: &str) -> (r: String)
    ensures
        r@ == result_path(sandbox_id@, batch_idx as nat, ext@),
{
    let mut path: String = "/tmp/".to_owned();
    text::push_text(&mut path, sandbox_id);
    text::push_text(&mut path, "-");
    let number = text::decimal_text(batch_idx as u64);
    text::push_text(&mut path, number.as_str());
    text::push_text(&mut path, ".");
    text::push_text(&mut path, ext);
    path
}

/// A glob pattern as `find` matches it: paths start with `./` or `/`.
pub open spec fn find_pattern(glob: Seq<char>) -> Seq<char> {
    if text::occurs_at(glob, "./"@, 0) || text::occurs_at(glob, "/"@, 0) {
        glob
    } else {
        "./"@ + glob
    }
}

/// The condition under which `find` takes a file for a glob pattern.
pub open spec fn path_predicate(glob: Seq<char>) -> Seq<char> {
    "-path '"@ + find_pattern(glob) + "'"@
}

/// The command that finds the files for glob patterns.
pub open spec fn find_line(globs: Seq<Seq<char>>) -> Seq<char> {
    "find . -type f "@ + if globs.len() == 1 {
        path_predicate(globs[0])
    } else {
        "\\( "@ + text::joined(globs.map_values(|g: Seq<char>| path_predicate(g)), " -o "@)
            + " \\)"@
    }
}

/// Builds a `find` command string from glob patterns.
///
/// Converts glob patterns into a `find -path` command. Each pattern is
/// prefixed with `./` if it doesn't already start with `./` or `/`.
pub fn build_find_command(globs: &[String]) -> (r: String)
    ensures
        r@ == find_line(text::views(globs@)),
{
    let ghost all = text::views(globs@);
    let ghost f = |g: Seq<char>| path_predicate(g);
    let mut parts: Vec<String> = Vec::new();
    let mut i: usize = 0;
    while i < globs.len()
        invariant
            0 <= i <= globs@.len(),
            all == text::views(globs@),
            parts@.len() == i,
            forall|j: int| 0 <= j < i ==> (#[trigger] parts@[j])@ == path_predicate(all[j]),
        decreases globs@.len() - i,
    {
        let glob = globs[i].as_str();
        let mut part: String = "-path '".to_owned();
        let ghost p0 = part@;
        if !text::starts_with(glob, "./") && !text::starts_with(glob, "/") {
            text::push_text(&mut part, "./");
        }
        text::push_text(&mut part, glob);
        proof {
            assert(all[i as int] == glob@);
            assert(part@ =~= p0 + find_pattern(glob@));
        }
        text::push_text(&mut part, "'");
        parts.push(part);
        i += 1;
    }
    proof {
        assert(text::views(parts@) =~= all.map_values(f));
    }
    let mut out: String = "find . -type f ".to_owned();
    let ghost o0 = out@;
    if parts.len() == 1 {
        text::push_text(&mut out, parts[0].as_str());
    } else {
        let list = text::join_texts(&parts, " -o ");
        text::push_text(&mut out, "\\( ");
        text::push_text(&mut out, list.as_str());
        text::push_text(&mut out, " \\)");
        proof {
            assert(out@ =~= o0 + ("\\( "@ + list@ + " \\)"@));
        }
    }
    out
}

/// Characters that do not go into file names.
pub open spec fn unsafe_in_names(c: char) -> bool {
    c == '/' || c == '\\' || c == ':' || c == '*' || c == '?' || c == '"' || c == '<' || c == '>'
        || c == '|'
}

/// An id as part of a file name.
pub open spec fn safe_name(id: Seq<char>) -> Seq<char> {
    id.map_values(
        |c: char|
            if unsafe_in_names(c) {
                '_'
            } else {
                c
            },
    )
}

/// An id as part of a file name: characters that are special there become
/// underscores.
pub fn safe_id(id: &str) -> (r: String)
    ensures
        r@ == safe_name(id@),
{
    let chars = text::chars_of(id);
    let mut out = String::new();
    let mut i: usize = 0;
    while i < chars.len()
        invariant
            0 <= i <= chars@.len(),
            chars@ == id@,
            out@ == safe_name(id@).take(i as int),
        decreases chars@.len() - i,
    {
        let c = chars[i];
        if c == '/' || c == '\\' || c == ':' || c == '*' || c == '?' || c == '"' || c == '<' || c
            == '>' || c == '|' {
            out.push('_');
        } else {
            out.push(c);
        }
        i += 1;
        proof {
            assert(safe_name(id@).take(i as int) =~= safe_name(id@).take(i - 1).push(
                safe_name(id@)[i - 1],
            ));
        }
    }
    proof {
        assert(safe_name(id@).take(i as int) =~= safe_name(id@));
    }
    out
}

/// Outcome of executing a single batch of tests.
#[derive(Debug, Clone, Copy, PartialEq, Eq, Structural)]
pub enum BatchOutcome {
    /// Execution completed; all tests in the batch passed.
    Success,
    /// Execution completed; one or more tests in the batch failed.
    Failure,
    /// Batch was cancelled before completion (e.g., early stopping).
    Cancelled,
}

/// Outcome of a streaming command execution.
#[derive(Debug, PartialEq, Eq)]
pub enum ExecStreamOutcome {
    /// Command completed (possibly with non-zero exit code).
    Completed(ExecResult),
    /// Execution was cancelled.
    Cancelled,
    /// Command exceeded its timeout and was stopped.
    TimedOut,
}

/// Configuration for downloading artifacts from sandboxes after test
/// execution.
#[derive(Debug)]
pub struct ArtifactConfig {
    /// Glob patterns for files to download. Empty means no downloads.
    pub globs: Vec<String>,
    /// Base output directory for downloaded artifacts.
    pub output_dir: String,
    /// When true, only download artifacts when the batch had failures.
    pub on_failure_only: bool,
}

/// Configuration shared across all runners in a single run.
#[derive(Debug)]
pub struct RunnerConfig {
    pub fail_fast: bool,
    /// Directory for the JUnit XML files of the batches.
    pub parts_dir: String,
    pub artifacts: ArtifactConfig,
}

/// Output collected from a command.
#[derive(Debug, PartialEq, Eq)]
pub struct Capture {
    pub stdout: String,
    pub stderr: String,
}

/// Standard output after one more line.
pub open spec fn stdout_with(stdout: Seq<char>, line: OutputLine) -> Seq<char> {
    match line {
        OutputLine::Stdout(s) => (stdout + s@).push('\n'),
        _ => stdout,
    }
}

/// Standard error after one more line.
pub open spec fn stderr_with(stderr: Seq<char>, line: OutputLine) -> Seq<char> {
    match line {
        OutputLine::Stderr(s) => (stderr + s@).push('\n'),
        _ => stderr,
    }
}

/// Processes a single output line from the stream. Returns whether the line
/// is text that a listener is told of.
pub fn process_output_line(line: &OutputLine, stdout: &mut String, stderr: &mut String) -> (r:
    bool)
    ensures
        final(stdout)@ == stdout_with(old(stdout)@, *line),
        final(stderr)@ == stderr_with(old(stderr)@, *line),
        r == !(*line is ExitCode),
{
    match line {
        OutputLine::Stdout(s) => {
            text::push_text(stdout, s.as_str());
            stdout.push('\n');
            true
        },
        OutputLine::Stderr(s) => {
            text::push_text(stderr, s.as_str());
            stderr.push('\n');
            true
        },
        OutputLine::ExitCode(_) => false,
    }
}

/// What happens while a command runs.
#[derive(Debug, PartialEq, Eq)]
pub enum StreamEvent {
    /// The run was cancelled.
    Cancelled,
    /// The time for the command is over.
    TimedOut,
    /// A line came.
    Line(OutputLine),
    /// No more lines will come.
    Ended,
    /// The process ended, with its exit code where there is one.
    Exited(Option<i32>),
}

/// What to do next with a running command.
#[derive(Debug, PartialEq, Eq)]
pub enum StreamStep {
    /// Wait for the next line; whether a listener is told of the last one.
    Read { tell: bool },
    /// Wait for the process to end.
    Wait,
    /// Nothing more; a process that still runs is stopped.
    Stop(ExecStreamOutcome),
}

/// Takes one event of a running command: lines are collected until the stream
/// ends, and then the exit code counts, or -1 where there is none. Being
/// cancelled or out of time ends it at once.
pub fn exec_with_streaming(capture: &mut Capture, event: &StreamEvent) -> (r: StreamStep)
    ensures
        match *event {
            StreamEvent::Line(line) => {
                &&& r == StreamStep::Read { tell: !(line is ExitCode) }
                &&& final(capture).stdout@ == stdout_with(old(capture).stdout@, line)
                &&& final(capture).stderr@ == stderr_with(old(capture).stderr@, line)
            },
            StreamEvent::Ended => r is Wait && *final(capture) == *old(capture),
            StreamEvent::Cancelled => r == StreamStep::Stop(ExecStreamOutcome::Cancelled)
                && *final(capture) == *old(capture),
            StreamEvent::TimedOut => r == StreamStep::Stop(ExecStreamOutcome::TimedOut)
                && *final(capture) == *old(capture),
            StreamEvent::Exited(code) => {
                &&& r matches StreamStep::Stop(ExecStreamOutcome::Completed(result))
                    && result.exit_code == (match code {
                    Some(c) => c,
                    None => -1i32,
                }) && result.stdout@ == old(capture).stdout@ && result.stderr@ == old(
                    capture,
                ).stderr@
                &&& *final(capture) == *old(capture)
            },
        },
{
    match event {
        StreamEvent::Line(line) => {
            let tell = process_output_line(line, &mut capture.stdout, &mut capture.stderr);
            StreamStep::Read { tell }
        },
        StreamEvent::Ended => StreamStep::Wait,
        StreamEvent::Cancelled => StreamStep::Stop(ExecStreamOutcome::Cancelled),
        StreamEvent::TimedOut => StreamStep::Stop(ExecStreamOutcome::TimedOut),
        StreamEvent::Exited(code) => {
            let exit_code: i32 = match code {
                Some(c) => *c,
                None => -1,
            };
            StreamStep::Stop(
                ExecStreamOutcome::Completed(
                    ExecResult {
                        exit_code,
                        stdout: capture.stdout.clone(),
                        stderr: capture.stderr.clone(),
                    },
                ),
            )
        },
    }
}

/// Why a batch could not be run to its end.
#[derive(Debug, Clone, Copy, PartialEq, Eq, Structural)]
pub enum RunFailure {
    /// The command could not be run.
    NotExecuted,
    /// The command ran out of time.
    TimedOut,
    /// There is no result file.
    NoResults,
    /// The result file could not be processed.
    BadResults,
}

/// How the run of a batch ended.
#[derive(Debug, Clone, Copy, PartialEq, Eq, Structural)]
pub enum RunEnd {
    Done(BatchOutcome),
    Failed(RunFailure),
}

/// What is to be done next for a batch.
#[derive(Debug, Clone, Copy, PartialEq, Eq, Structural)]
pub enum RunStage {
    /// Execute the test command.
    Executing,
    /// Record the only test of the batch as failed, as [`recordings`] says.
    RecordingTimeout,
    /// Download the result file.
    Downloading,
    /// Convert the result file to JUnit XML.
    Converting,
    /// Save the JUnit XML of the batch.
    Saving { failures: bool },
    /// Download artifacts.
    FetchingArtifacts { failures: bool },
    /// Parse the JUnit XML.
    Parsing { failures: bool },
    /// Resolve the ids of the tests in the results.
    Resolving { failures: bool },
    /// Add the results to the report.
    Adding { failures: bool },
    /// Record the tests of the batch in the completion tracker, as
    /// [`recordings`] says.
    Recording { failures: bool },
    /// Nothing.
    Finished(RunEnd),
}

/// What came of a stage.
#[derive(Debug, Clone, Copy, PartialEq, Eq, Structural)]
pub enum RunReply {
    /// The command completed, whatever its exit code.
    Completed,
    /// The run was cancelled.
    Cancelled,
    /// The command ran out of time.
    TimedOut,
    /// The command could not be run.
    NotExecuted,
    /// The tests are recorded.
    Recorded,
    /// The result file was downloaded.
    Downloaded,
    /// There is no result file.
    NothingDownloaded,
    /// The result file was converted; whether it reports failures.
    Converted { failures: bool },
    /// The result file could not be converted.
    NotConverted,
    /// The JUnit XML was saved, or could not be.
    Saved,
    /// Artifacts were downloaded as far as possible.
    ArtifactsFetched,
    /// The JUnit XML was parsed into this number of testsuites.
    Parsed { testsuites: usize },
    /// The ids were resolved.
    Resolved,
    /// The ids could not be resolved.
    NotResolved,
    /// The results were added to the report.
    Added,
    /// The report did not take the results.
    NotAdded,
    /// The report is not available.
    NoReport,
}

/// The outcome of a batch that ran to its end.
pub open spec fn outcome_of(failures: bool) -> BatchOutcome {
    if failures {
        BatchOutcome::Failure
    } else {
        BatchOutcome::Success
    }
}

/// The next stage for a batch of `tests` tests. A reply that does not belong
/// to a stage leaves it.
pub open spec fn next_stage(
    stage: RunStage,
    reply: RunReply,
    tests: nat,
    on_failure_only: bool,
) -> RunStage {
    match stage {
        RunStage::Executing => match reply {
            RunReply::Completed => RunStage::Downloading,
            RunReply::Cancelled => RunStage::Finished(RunEnd::Done(BatchOutcome::Cancelled)),
            RunReply::TimedOut => if tests == 1 {
                RunStage::RecordingTimeout
            } else {
                RunStage::Finished(RunEnd::Failed(RunFailure::TimedOut))
            },
            RunReply::NotExecuted => RunStage::Finished(RunEnd::Failed(RunFailure::NotExecuted)),
            _ => stage,
        },
        RunStage::RecordingTimeout => match reply {
            RunReply::Recorded => RunStage::Finished(RunEnd::Done(BatchOutcome::Failure)),
            _ => stage,
        },
        RunStage::Downloading => match reply {
            RunReply::Downloaded => RunStage::Converting,
            RunReply::NothingDownloaded => RunStage::Finished(
                RunEnd::Failed(RunFailure::NoResults),
            ),
            _ => stage,
        },
        RunStage::Converting => match reply {
            RunReply::Converted { failures } => RunStage::Saving { failures },
            RunReply::NotConverted => RunStage::Finished(RunEnd::Failed(RunFailure::BadResults)),
            _ => stage,
        },
        RunStage::Saving { failures } => match reply {
            RunReply::Saved => if !on_failure_only || failures {
                RunStage::FetchingArtifacts { failures }
            } else {
                RunStage::Parsing { failures }
            },
            _ => stage,
        },
        RunStage::FetchingArtifacts { failures } => match reply {
            RunReply::ArtifactsFetched => RunStage::Parsing { failures },
            _ => stage,
        },
        RunStage::Parsing { failures } => match reply {
            RunReply::Parsed { testsuites } => if testsuites == 0 {
                RunStage::Adding { failures }
            } else {
                RunStage::Resolving { failures }
            },
            _ => stage,
        },
        RunStage::Resolving { failures } => match reply {
            RunReply::Resolved => RunStage::Adding { failures },
            RunReply::NotResolved => RunStage::Finished(RunEnd::Done(BatchOutcome::Failure)),
            _ => stage,
        },
        RunStage::Adding { failures } => match reply {
            RunReply::Added => RunStage::Recording { failures },
            RunReply::NotAdded => RunStage::Finished(RunEnd::Done(BatchOutcome::Failure)),
            RunReply::NoReport => RunStage::Finished(RunEnd::Done(outcome_of(failures))),
            _ => stage,
        },
        RunStage::Recording { failures } => match reply {
            RunReply::Recorded => RunStage::Finished(RunEnd::Done(outcome_of(failures))),
            _ => stage,
        },
        RunStage::Finished(_) => stage,
    }
}

/// What is to be done next to download artifacts.
#[derive(Debug, Clone, Copy, PartialEq, Eq, Structural)]
pub enum ArtifactStage {
    /// Run the command that packs the files into an archive.
    Packing,
    /// Make a temporary file.
    MakingTemp,
    /// Download the archive into it.
    Downloading,
    /// Look up the size of the archive.
    Measuring,
    /// Make the directory for the files.
    MakingDir,
    /// Extract the archive.
    Extracting,
    /// Nothing; whether files were fetched.
    Finished { fetched: bool },
}

/// What came of a stage of downloading artifacts.
#[derive(Debug, Clone, Copy, PartialEq, Eq, Structural)]
pub enum ArtifactReply {
    /// It went well; for a command, it completed, whatever its exit code.
    Good,
    /// It did not go well.
    Bad,
    /// The size of the archive in bytes.
    Size(u64),
}

/// The next stage of downloading artifacts. What does not go well ends it, and
/// so does an empty archive.
pub open spec fn next_artifact_stage(stage: ArtifactStage, reply: ArtifactReply) -> ArtifactStage {
    match (stage, reply) {
        (ArtifactStage::Finished { fetched }, _) => stage,
        (ArtifactStage::Packing, ArtifactReply::Good) => ArtifactStage::MakingTemp,
        (ArtifactStage::MakingTemp, ArtifactReply::Good) => ArtifactStage::Downloading,
        (ArtifactStage::Downloading, ArtifactReply::Good) => ArtifactStage::Measuring,
        (ArtifactStage::Measuring, ArtifactReply::Size(n)) => if n > 0 {
            ArtifactStage::MakingDir
        } else {
            ArtifactStage::Finished { fetched: false }
        },
        (ArtifactStage::MakingDir, ArtifactReply::Good) => ArtifactStage::Extracting,
        (ArtifactStage::Extracting, ArtifactReply::Good) => ArtifactStage::Finished {
            fetched: true,
        },
        _ => ArtifactStage::Finished { fetched: false },
    }
}

/// Takes what came of a stage of downloading artifacts and returns the next.
/// Downloading artifacts never fails a batch.
pub fn try_download_artifacts(stage: ArtifactStage, reply: ArtifactReply) -> (r: ArtifactStage)
    ensures
        r == next_artifact_stage(stage, reply),
{
    match (stage, reply) {
        (ArtifactStage::Finished { fetched }, _) => ArtifactStage::Finished { fetched },
        (ArtifactStage::Packing, ArtifactReply::Good) => ArtifactStage::MakingTemp,
        (ArtifactStage::MakingTemp, ArtifactReply::Good) => ArtifactStage::Downloading,
        (ArtifactStage::Downloading, ArtifactReply::Good) => ArtifactStage::Measuring,
        (ArtifactStage::Measuring, ArtifactReply::Size(n)) => {
            if n > 0 {
                ArtifactStage::MakingDir
            } else {
                ArtifactStage::Finished { fetched: false }
            }
        },
        (ArtifactStage::MakingDir, ArtifactReply::Good) => ArtifactStage::Extracting,
        (ArtifactStage::Extracting, ArtifactReply::Good) => ArtifactStage::Finished {
            fetched: true,
        },
        _ => ArtifactStage::Finished { fetched: false },
    }
}

/// How artifacts are packed and where they go.
#[derive(Debug)]
pub struct ArtifactPlan {
    /// The command that packs the files inside the sandbox.
    pub command: Command,
    /// Path of the archive inside the sandbox.
    pub tar_remote_path: String,
    /// Directory for the files below the output directory: the sandbox, and
    /// the batch below it.
    pub destination: (String, String),
}

/// Path of the archive of a batch inside its sandbox.
pub open spec fn archive_path(sandbox_id: Seq<char>, batch_idx: nat) -> Seq<char> {
    "/tmp/offload-artifacts-"@ + safe_name(sandbox_id) + "-"@ + text::decimal(batch_idx)
        + ".tar.gz"@
}

/// The command line that packs files into the archive.
pub open spec fn pack_line(globs: Seq<Seq<char>>, archive: Seq<char>) -> Seq<char> {
    find_line(globs) + " -print0 | tar czf "@ + archive + " --null -T - 2>/dev/null"@
}

/// Ids that occur earlier in the row, in order.
pub open spec fn repeated(ids: Seq<Seq<char>>) -> Seq<Seq<char>>
    decreases ids.len(),
{
    if ids.len() == 0 {
        seq![]
    } else {
        let before = repeated(ids.drop_last());
        if ids.drop_last().contains(ids.last()) {
            before.push(ids.last())
        } else {
            before
        }
    }
}

/// Ids of tests, in order.
pub open spec fn ids_of(tests: Seq<TestInstance>) -> Seq<Seq<char>> {
    tests.map_values(|t: TestInstance| t.id@)
}

/// The ids that occur more than once in a batch, and the number of different
/// ids.
pub fn duplicate_ids(tests: &[TestInstance]) -> (r: (Vec<String>, usize))
    ensures
        text::views(r.0@) == repeated(ids_of(tests@)),
        r.1 == ids_of(tests@).to_set().len(),
        r.0@.len() + r.1 == tests@.len(),
{
    let ghost ids = ids_of(tests@);
    let mut seen = StringHashSet::new();
    let mut duplicates: Vec<String> = Vec::new();
    let mut unique: usize = 0;
    let mut i: usize = 0;
    proof {
        assert(text::views(duplicates@) =~= repeated(ids.take(0)));
        assert(ids.take(0).to_set() =~= Set::<Seq<char>>::empty());
    }
    while i < tests.len()
        invariant
            0 <= i <= tests@.len(),
            ids == ids_of(tests@),
            seen@ == ids.take(i as int).to_set(),
            seen@.finite(),
            unique == seen@.len(),
            unique + duplicates@.len() == i,
            text::views(duplicates@) == repeated(ids.take(i as int)),
        decreases tests@.len() - i,
    {
        let ghost before = ids.take(i as int);
        let ghost now = ids.take(i + 1);
        let ghost id = ids[i as int];
        let ghost duplicates0 = duplicates@;
        proof {
            assert(now.drop_last() =~= before);
            assert(now.last() == id);
            assert(now.to_set() =~= before.to_set().insert(id)) by {
                assert forall|x: Seq<char>| #[trigger] now.to_set().contains(x)
                    == before.to_set().insert(id).contains(x) by {
                    if now.contains(x) {
                        let k = choose|k: int| 0 <= k < now.len() && now[k] == x;
                        if k < before.len() {
                            assert(before[k] == x);
                        }
                    }
                    if before.contains(x) {
                        let k = choose|k: int| 0 <= k < before.len() && before[k] == x;
                        assert(now[k] == x);
                    }
                    if x == id {
                        assert(now[now.len() - 1] == x);
                    }
                }
            }
        }
        let test = &tests[i];
        if seen.insert(test.id.clone()) {
            unique = unique + 1;
        } else {
            duplicates.push(test.id.clone());
            proof {
                assert(before.to_set().insert(id) =~= before.to_set());
                assert(text::views(duplicates@) =~= text::views(duplicates0).push(id));
            }
        }
        i += 1;
    }
    proof {
        assert(ids.take(i as int) =~= ids);
    }
    (duplicates, unique)
}

/// What a stage records: all tests of the batch in order, each with whether it
/// passed. A test that ran out of time did not pass; else the report says so.
pub open spec fn recorded_by(stage: RunStage, ids: Seq<Seq<char>>, passed: Seq<bool>) -> Seq<
    (Seq<char>, bool),
> {
    match stage {
        RunStage::RecordingTimeout => Seq::new(ids.len(), |i: int| (ids[i], false)),
        RunStage::Recording { .. } => Seq::new(ids.len(), |i: int| (ids[i], passed[i])),
        _ => seq![],
    }
}

/// What to record in the completion tracker at a stage: each test of the batch
/// with whether it passed. For [`RunStage::Recording`], `passed` holds for each
/// test what the report says once the results are in it.
pub fn recordings(tests: &[TestInstance], stage: RunStage, passed: &[bool]) -> (r: Vec<
    (String, bool),
>)
    requires
        stage is Recording ==> passed@.len() == tests@.len(),
    ensures
        r@.map_values(|e: (String, bool)| (e.0@, e.1)) == recorded_by(
            stage,
            ids_of(tests@),
            passed@,
        ),
{
    let ghost all = recorded_by(stage, ids_of(tests@), passed@);
    let mut out: Vec<(String, bool)> = Vec::new();
    let judged = match stage {
        RunStage::RecordingTimeout => false,
        RunStage::Recording { .. } => true,
        _ => {
            proof {
                assert(out@.map_values(|e: (String, bool)| (e.0@, e.1)) =~= all);
            }
            return out;
        },
    };
    let mut i: usize = 0;
    while i < tests.len()
        invariant
            0 <= i <= tests@.len(),
            judged ==> passed@.len() == tests@.len(),
            all.len() == tests@.len(),
            forall|j: int|
                0 <= j < tests@.len() ==> #[trigger] all[j] == (
                    tests@[j].id@,
                    judged && passed@[j],
                ),
            out@.len() == i,
            forall|j: int|
                0 <= j < i ==> (#[trigger] out@[j]).0@ == all[j].0 && out@[j].1 == all[j].1,
        decreases tests@.len() - i,
    {
        out.push((tests[i].id.clone(), judged && passed[i]));
        i += 1;
    }
    proof {
        assert(out@.map_values(|e: (String, bool)| (e.0@, e.1)) =~= all);
    }
    out
}

/// The results of a batch, by what came of downloading them: the content of
/// the file and the number of testcases in it. There are none unless the
/// directory could be made and the file was downloaded, read and not empty.
pub fn try_download_results(dir_ready: bool, downloaded: bool, content: Option<String>) -> (r:
    Option<(String, usize)>)
    ensures
        match r {
            Some((text, count)) => dir_ready && downloaded && content == Some(text) && text@.len()
                > 0 && count == testcases_in(text@),
            None => !dir_ready || !downloaded || content is None || content->0@.len() == 0,
        },
{
    if !dir_ready || !downloaded {
        return None;
    }
    match content {
        Some(text) => {
            let chars = text::chars_of(text.as_str());
            if chars.len() == 0 {
                return None;
            }
            let count: usize = count_testcases_in_xml(text.as_str());
            Some((text, count))
        },
        None => None,
    }
}

/// Executes tests within a single sandbox.
#[derive(Debug)]
pub struct TestRunner<S> {
    pub sandbox: S,
    pub sandbox_id: String,
    pub timeout_secs: u64,
    /// Index of the current batch.
    pub batch_idx: usize,
    pub config: RunnerConfig,
}

impl<S> TestRunner<S> {
    /// Creates a new test runner for the given sandbox.
    pub fn new(
        sandbox: S,
        sandbox_id: &str,
        timeout_secs: u64,
        batch_idx: usize,
        config: RunnerConfig,
    ) -> (r: Self)
        ensures
            r.sandbox == sandbox,
            r.sandbox_id@ == sandbox_id@,
            r.timeout_secs == timeout_secs,
            r.batch_idx == batch_idx,
            r.config == config,
    {
        TestRunner { sandbox, sandbox_id: sandbox_id.to_owned(), timeout_secs, batch_idx, config }
    }

    /// Consumes the runner and returns the owned sandbox.
    pub fn into_sandbox(self) -> (r: S)
        ensures
            r == self.sandbox,
    {
        self.sandbox
    }

    /// Path of the result file inside the sandbox.
    pub fn result_path(&self, report_format: &str) -> (r: String)
        ensures
            r@ == result_path(self.sandbox_id@, self.batch_idx as nat, report_format@),
    {
        batch_result_path(self.sandbox_id.as_str(), self.batch_idx, report_format)
    }

    /// The test command with the timeout of the runner.
    pub fn timed_command(&self, cmd: Command) -> (r: Command)
        ensures
            r@ == (CommandView { timeout_secs: Some(self.timeout_secs), ..cmd@ }),
    {
        cmd.timeout(self.timeout_secs)
    }

    /// Name of the file for the JUnit XML of this sandbox.
    pub fn part_file(&self) -> (r: String)
        ensures
            r@ == safe_name(self.sandbox_id@) + ".xml"@,
    {
        let mut name = safe_id(self.sandbox_id.as_str());
        text::push_text(&mut name, ".xml");
        name
    }

    /// Runs multiple tests in a batch: takes what came of a stage and returns
    /// the next. The first stage is [`RunStage::Executing`].
    ///
    /// The run ends with
    ///
    /// - `Done(Success)` if execution completed and all tests passed
    /// - `Done(Failure)` if execution completed but one or more tests failed
    /// - `Done(Cancelled)` if the batch was cancelled before completion
    /// - `Failed(..)` if execution failed due to an infrastructure error
    pub fn run_tests(&self, tests: &[TestInstance], stage: RunStage, reply: RunReply) -> (r:
        RunStage)
        ensures
            r == next_stage(stage, reply, tests@.len(), self.config.artifacts.on_failure_only),
    {
        match (stage, reply) {
            (RunStage::Executing, RunReply::Completed) => RunStage::Downloading,
            (RunStage::Executing, RunReply::Cancelled) => RunStage::Finished(
                RunEnd::Done(BatchOutcome::Cancelled),
            ),
            (RunStage::Executing, RunReply::TimedOut) => {
                if tests.len() == 1 {
                    RunStage::RecordingTimeout
                } else {
                    RunStage::Finished(RunEnd::Failed(RunFailure::TimedOut))
                }
            },
            (RunStage::Executing, RunReply::NotExecuted) => RunStage::Finished(
                RunEnd::Failed(RunFailure::NotExecuted),
            ),
            (RunStage::RecordingTimeout, RunReply::Recorded) => RunStage::Finished(
                RunEnd::Done(BatchOutcome::Failure),
            ),
            (RunStage::Downloading, RunReply::Downloaded) => RunStage::Converting,
            (RunStage::Downloading, RunReply::NothingDownloaded) => RunStage::Finished(
                RunEnd::Failed(RunFailure::NoResults),
            ),
            (RunStage::Converting, RunReply::Converted { failures }) => RunStage::Saving {
                failures,
            },
            (RunStage::Converting, RunReply::NotConverted) => RunStage::Finished(
                RunEnd::Failed(RunFailure::BadResults),
            ),
            (RunStage::Saving { failures }, RunReply::Saved) => {
                if !self.config.artifacts.on_failure_only || failures {
                    RunStage::FetchingArtifacts { failures }
                } else {
                    RunStage::Parsing { failures }
                }
            },
            (RunStage::FetchingArtifacts { failures }, RunReply::ArtifactsFetched)
                => RunStage::Parsing { failures },
            (RunStage::Parsing { failures }, RunReply::Parsed { testsuites }) => {
                if testsuites == 0 {
                    RunStage::Adding { failures }
                } else {
                    RunStage::Resolving { failures }
                }
            },
            (RunStage::Resolving { failures }, RunReply::Resolved) => RunStage::Adding { failures },
            (RunStage::Resolving { .. }, RunReply::NotResolved) => RunStage::Finished(
                RunEnd::Done(BatchOutcome::Failure),
            ),
            (RunStage::Adding { failures }, RunReply::Added) => RunStage::Recording { failures },
            (RunStage::Adding { .. }, RunReply::NotAdded) => RunStage::Finished(
                RunEnd::Done(BatchOutcome::Failure),
            ),
            (RunStage::Adding { failures }, RunReply::NoReport) => RunStage::Finished(
                RunEnd::Done(batch_outcome(failures)),
            ),
            (RunStage::Recording { failures }, RunReply::Recorded) => RunStage::Finished(
                RunEnd::Done(batch_outcome(failures)),
            ),
            _ => stage,
        }
    }

    /// The message for a batch of `tests` tests that could not be run to its
    /// end; `detail` is the message of what went wrong.
    pub fn failure_text(&self, failure: RunFailure, tests: usize, detail: &str) -> (r: String)
        ensures
            r@ == match failure {
                RunFailure::NotExecuted => detail@,
                RunFailure::TimedOut => "Test execution timed out after "@ + text::decimal(
                    self.timeout_secs as nat,
                ) + "s"@,
                RunFailure::NoResults => "Sandbox "@ + self.sandbox_id@
                    + " failed to download junit.xml for "@ + text::decimal(tests as nat)
                    + " tests"@,
                RunFailure::BadResults => "Failed to process test results: "@ + detail@,
            },
    {
        match failure {
            RunFailure::NotExecuted => detail.to_owned(),
            RunFailure::TimedOut => {
                let mut m: String = "Test execution timed out after ".to_owned();
                let secs = text::decimal_text(self.timeout_secs);
                text::push_text(&mut m, secs.as_str());
                text::push_text(&mut m, "s");
                m
            },
            RunFailure::NoResults => {
                let mut m: String = "Sandbox ".to_owned();
                text::push_text(&mut m, self.sandbox_id.as_str());
                text::push_text(&mut m, " failed to download junit.xml for ");
                let n = text::decimal_text(tests as u64);
                text::push_text(&mut m, n.as_str());
                text::push_text(&mut m, " tests");
                m
            },
            RunFailure::BadResults => {
                let mut m: String = "Failed to process test results: ".to_owned();
                text::push_text(&mut m, detail);
                m
            },
        }
    }

    /// How to download artifacts; `None` if there is nothing to download.
    ///
    /// Combines `find -print0` and `tar --null -T -` into a single pipeline to
    /// avoid limits on the length of commands and to handle file names with
    /// newlines or special characters.
    pub fn plan_artifacts(&self) -> (r: Option<ArtifactPlan>)
        ensures
            match r {
                None => self.config.artifacts.globs@.len() == 0,
                Some(plan) => {
                    let archive = archive_path(self.sandbox_id@, self.batch_idx as nat);
                    &&& self.config.artifacts.globs@.len() > 0
                    &&& plan.tar_remote_path@ == archive
                    &&& plan.command@ == (CommandView {
                        program: "sh"@,
                        args: seq![
                            "-c"@,
                            pack_line(text::views(self.config.artifacts.globs@), archive),
                        ],
                        working_dir: None,
                        env: seq![],
                        timeout_secs: None,
                    })
                    &&& plan.destination.0@ == safe_name(self.sandbox_id@)
                    &&& plan.destination.1@ == text::decimal(self.batch_idx as nat)
                },
            },
    {
        if self.config.artifacts.globs.len() == 0 {
            return None;
        }
        let name = safe_id(self.sandbox_id.as_str());
        let number = text::decimal_text(self.batch_idx as u64);
        let mut archive: String = "/tmp/offload-artifacts-".to_owned();
        text::push_text(&mut archive, name.as_str());
        text::push_text(&mut archive, "-");
        text::push_text(&mut archive, number.as_str());
        text::push_text(&mut archive, ".tar.gz");
        let mut line = build_find_command(self.config.artifacts.globs.as_slice());
        text::push_text(&mut line, " -print0 | tar czf ");
        text::push_text(&mut line, archive.as_str());
        text::push_text(&mut line, " --null -T - 2>/dev/null");
        let command = Command::new("sh").arg("-c").arg(line.as_str());
        proof {
            assert(Seq::<Seq<char>>::empty().push("-c"@).push(line@) =~= seq!["-c"@, line@]);
        }
        Some(ArtifactPlan { command, tar_remote_path: archive, destination: (name, number) })
    }
}

/// What came of executing the test command.
pub fn executed(outcome: &ExecStreamOutcome) -> (r: RunReply)
    ensures
        r == match *outcome {
            ExecStreamOutcome::Completed(_) => RunReply::Completed,
            ExecStreamOutcome::Cancelled => RunReply::Cancelled,
            ExecStreamOutcome::TimedOut => RunReply::TimedOut,
        },
{
    match outcome {
        ExecStreamOutcome::Completed(_) => RunReply::Completed,
        ExecStreamOutcome::Cancelled => RunReply::Cancelled,
        ExecStreamOutcome::TimedOut => RunReply::TimedOut,
    }
}

/// What came of downloading the result file.
pub fn downloaded(results: &Option<(String, usize)>) -> (r: RunReply)
    ensures
        r == if *results is Some {
            RunReply::Downloaded
        } else {
            RunReply::NothingDownloaded
        },
{
    match results {
        Some(_) => RunReply::Downloaded,
        None => RunReply::NothingDownloaded,
    }
}

/// What came of converting the result file to JUnit XML.
pub fn converted(xml: Option<&str>) -> (r: RunReply)
    ensures
        r == match xml {
            Some(text) => RunReply::Converted { failures: failures_in(text@) },
            None => RunReply::NotConverted,
        },
{
    match xml {
        Some(text) => RunReply::Converted { failures: has_failures_in_xml(text) },
        None => RunReply::NotConverted,
    }
}

/// The outcome of a batch that ran to its end.
fn batch_outcome(failures: bool) -> (r: BatchOutcome)
    ensures
        r == outcome_of(failures),
{
    if failures {
        BatchOutcome::Failure
    } else {
        BatchOutcome::Success
    }
}

} // verus!
