use offload::framework::{TestInstance, TestRecord};
use offload::orchestrator::runner::{
    batch_result_path, build_find_command, converted, count_testcases_in_xml, downloaded,
    duplicate_ids, exec_with_streaming, executed, has_failures_in_xml, process_output_line,
    recordings, safe_id, try_download_artifacts, try_download_results, ArtifactConfig, ArtifactReply,
    ArtifactStage, BatchOutcome, Capture, ExecStreamOutcome, RunEnd, RunFailure, RunReply,
    RunStage, RunnerConfig, StreamEvent, StreamStep, TestRunner,
};
use offload::provider::command::{Command, OutputLine};

#[test]
fn test_has_failures_in_xml_no_failures() {
    let xml = r#"<testsuite><testcase name="t1" /></testsuite>"#;
    assert!(!has_failures_in_xml(xml));
}

#[test]
fn test_has_failures_in_xml_with_failure() {
    let xml = r#"<testsuite><testcase name="t1"><failure message="oops">trace</failure></testcase></testsuite>"#;
    assert!(has_failures_in_xml(xml));
}

#[test]
fn test_has_failures_in_xml_with_error() {
    let xml = r#"<testsuite><testcase name="t1"><error message="boom">trace</error></testcase></testsuite>"#;
    assert!(has_failures_in_xml(xml));
}

#[test]
fn test_build_find_command_single_glob() {
    let cmd = build_find_command(&["*.xml".to_string()]);
    assert_eq!(cmd, "find . -type f -path './*.xml'");
}

#[test]
fn test_build_find_command_multiple_globs() {
    let cmd = build_find_command(&[
        "*.xml".to_string(),
        "*.png".to_string(),
        "coverage/*".to_string(),
    ]);
    assert_eq!(
        cmd,
        "find . -type f \\( -path './*.xml' -o -path './*.png' -o -path './coverage/*' \\)"
    );
}

#[test]
fn test_build_find_command_preserves_leading_dot_slash() {
    let cmd = build_find_command(&["./output/*.log".to_string()]);
    assert_eq!(cmd, "find . -type f -path './output/*.log'");
}

#[test]
fn test_build_find_command_preserves_absolute_path() {
    let cmd = build_find_command(&["/tmp/*.dat".to_string()]);
    assert_eq!(cmd, "find . -type f -path '/tmp/*.dat'");
}

#[test]
fn test_batch_result_path_shape() {
    assert_eq!(batch_result_path("sb-abc", 3, "xml"), "/tmp/sb-abc-3.xml");
}

#[test]
fn test_batch_result_path_distinct_per_batch() {
    // Different batches on the same sandbox must get distinct paths,
    // otherwise a later batch downloads a stale earlier result file.
    let first = batch_result_path("sb-abc", 0, "xml");
    let second = batch_result_path("sb-abc", 1, "xml");
    assert_ne!(first, second);
}

#[test]
fn result_paths_keep_sandbox_and_batch_apart() {
    assert_ne!(
        batch_result_path("sb-1", 12, "xml"),
        batch_result_path("sb-11", 2, "xml")
    );
    assert_eq!(batch_result_path("", 1024, "json"), "/tmp/-1024.json");
}

#[test]
fn testcases_are_counted() {
    assert_eq!(count_testcases_in_xml(""), 0);
    assert_eq!(
        count_testcases_in_xml(r#"<testcase name="a"/><testcases><testcase name="b"/>"#),
        2
    );
}

#[test]
fn find_command_without_globs() {
    assert_eq!(build_find_command(&[]), "find . -type f \\(  \\)");
}

#[test]
fn ids_are_made_safe_for_file_names() {
    assert_eq!(safe_id("a/b\\c:d*e?f\"g<h>i|j"), "a_b_c_d_e_f_g_h_i_j");
    assert_eq!(safe_id("sb-123.x"), "sb-123.x");
}

fn artifacts(globs: &[&str], on_failure_only: bool) -> ArtifactConfig {
    ArtifactConfig {
        globs: globs.iter().map(|g| g.to_string()).collect(),
        output_dir: "out".to_string(),
        on_failure_only,
    }
}

fn runner(globs: &[&str], on_failure_only: bool) -> TestRunner<u32> {
    TestRunner::new(
        7,
        "sb/1",
        2,
        4,
        RunnerConfig {
            fail_fast: false,
            parts_dir: "parts".to_string(),
            artifacts: artifacts(globs, on_failure_only),
        },
    )
}

fn instances(ids: &[&str]) -> Vec<TestInstance> {
    ids.iter().map(|id| TestRecord::new(id, "g").test()).collect()
}

fn play(runner: &TestRunner<u32>, tests: &[TestInstance], replies: &[RunReply]) -> RunStage {
    let mut stage = RunStage::Executing;
    for reply in replies {
        stage = runner.run_tests(tests, stage, *reply);
    }
    stage
}

#[test]
fn a_batch_without_failures_succeeds() {
    let r = runner(&[], false);
    let tests = instances(&["a", "b"]);
    let stage = play(
        &r,
        &tests,
        &[
            RunReply::Completed,
            RunReply::Downloaded,
            RunReply::Converted { failures: false },
            RunReply::Saved,
            RunReply::ArtifactsFetched,
            RunReply::Parsed { testsuites: 1 },
            RunReply::Resolved,
            RunReply::Added,
            RunReply::Recorded,
        ],
    );
    assert_eq!(stage, RunStage::Finished(RunEnd::Done(BatchOutcome::Success)));
    assert_eq!(r.into_sandbox(), 7);
}

#[test]
fn a_batch_with_failures_fails() {
    let r = runner(&[], true);
    let tests = instances(&["a", "b"]);
    let replies = [
        RunReply::Completed,
        RunReply::Downloaded,
        RunReply::Converted { failures: true },
        RunReply::Saved,
        RunReply::ArtifactsFetched,
        RunReply::Parsed { testsuites: 0 },
        RunReply::NoReport,
    ];
    assert_eq!(
        play(&r, &tests, &replies),
        RunStage::Finished(RunEnd::Done(BatchOutcome::Failure))
    );
}

#[test]
fn artifacts_are_skipped_without_failures_when_so_configured() {
    let r = runner(&[], true);
    let tests = instances(&["a"]);
    let saving = RunStage::Saving { failures: false };
    assert_eq!(
        r.run_tests(&tests, saving, RunReply::Saved),
        RunStage::Parsing { failures: false }
    );
    let saving = RunStage::Saving { failures: true };
    assert_eq!(
        r.run_tests(&tests, saving, RunReply::Saved),
        RunStage::FetchingArtifacts { failures: true }
    );
}

#[test]
fn unresolved_or_refused_results_fail_the_batch() {
    let r = runner(&[], false);
    let tests = instances(&["a"]);
    let failed = RunStage::Finished(RunEnd::Done(BatchOutcome::Failure));
    let resolving = RunStage::Resolving { failures: false };
    assert_eq!(r.run_tests(&tests, resolving, RunReply::NotResolved), failed);
    let adding = RunStage::Adding { failures: false };
    assert_eq!(r.run_tests(&tests, adding, RunReply::NotAdded), failed);
    assert_eq!(r.run_tests(&tests, adding, RunReply::Completed), adding);
}

#[test]
fn a_single_test_out_of_time_is_recorded_as_failed() {
    let r = runner(&[], false);
    let tests = instances(&["my_test::timeout_case"]);
    assert_eq!(play(&r, &tests, &[RunReply::TimedOut]), RunStage::RecordingTimeout);
    assert_eq!(
        play(&r, &tests, &[RunReply::TimedOut, RunReply::Recorded]),
        RunStage::Finished(RunEnd::Done(BatchOutcome::Failure))
    );
}

#[test]
fn runs_that_cannot_finish_are_errors() {
    let r = runner(&[], false);
    let tests = instances(&["a", "b", "c"]);
    let end = |replies: &[RunReply]| play(&r, &tests, replies);
    assert_eq!(
        end(&[RunReply::Cancelled]),
        RunStage::Finished(RunEnd::Done(BatchOutcome::Cancelled))
    );
    assert_eq!(
        end(&[RunReply::TimedOut]),
        RunStage::Finished(RunEnd::Failed(RunFailure::TimedOut))
    );
    assert_eq!(
        end(&[RunReply::NotExecuted]),
        RunStage::Finished(RunEnd::Failed(RunFailure::NotExecuted))
    );
    assert_eq!(
        end(&[RunReply::Completed, RunReply::NothingDownloaded]),
        RunStage::Finished(RunEnd::Failed(RunFailure::NoResults))
    );
    assert_eq!(
        end(&[RunReply::Completed, RunReply::Downloaded, RunReply::NotConverted]),
        RunStage::Finished(RunEnd::Failed(RunFailure::BadResults))
    );
    assert_eq!(
        r.failure_text(RunFailure::TimedOut, 3, ""),
        "Test execution timed out after 2s"
    );
    assert_eq!(
        r.failure_text(RunFailure::NoResults, 3, ""),
        "Sandbox sb/1 failed to download junit.xml for 3 tests"
    );
    assert_eq!(
        r.failure_text(RunFailure::BadResults, 3, "no JSON"),
        "Failed to process test results: no JSON"
    );
    assert_eq!(r.failure_text(RunFailure::NotExecuted, 3, "gone"), "gone");
}

#[test]
fn replies_follow_from_what_came() {
    assert_eq!(executed(&ExecStreamOutcome::Cancelled), RunReply::Cancelled);
    assert_eq!(executed(&ExecStreamOutcome::TimedOut), RunReply::TimedOut);
    assert_eq!(downloaded(&None), RunReply::NothingDownloaded);
    assert_eq!(downloaded(&Some(("x".to_string(), 0))), RunReply::Downloaded);
    assert_eq!(converted(None), RunReply::NotConverted);
    assert_eq!(converted(Some("<a/>")), RunReply::Converted { failures: false });
    assert_eq!(converted(Some("<error/>")), RunReply::Converted { failures: true });
}

#[test]
fn output_is_collected_until_the_process_ends() {
    let mut capture = Capture { stdout: String::new(), stderr: String::new() };
    let lines = [
        OutputLine::Stdout("hello".to_string()),
        OutputLine::Stderr("oops".to_string()),
        OutputLine::ExitCode(3),
        OutputLine::Stdout("world".to_string()),
    ];
    for line in lines {
        let tell = !matches!(line, OutputLine::ExitCode(_));
        assert_eq!(
            exec_with_streaming(&mut capture, &StreamEvent::Line(line)),
            StreamStep::Read { tell }
        );
    }
    assert_eq!(exec_with_streaming(&mut capture, &StreamEvent::Ended), StreamStep::Wait);
    match exec_with_streaming(&mut capture, &StreamEvent::Exited(Some(0))) {
        StreamStep::Stop(outcome) => {
            assert_eq!(executed(&outcome), RunReply::Completed);
            match outcome {
                ExecStreamOutcome::Completed(result) => {
                    assert_eq!(result.exit_code, 0);
                    assert_eq!(result.stdout, "hello\nworld\n");
                    assert_eq!(result.stderr, "oops\n");
                }
                other => panic!("unexpected outcome {other:?}"),
            }
        }
        other => panic!("unexpected step {other:?}"),
    }
}

#[test]
fn a_process_without_exit_code_counts_as_minus_one() {
    let mut capture = Capture { stdout: String::new(), stderr: String::new() };
    match exec_with_streaming(&mut capture, &StreamEvent::Exited(None)) {
        StreamStep::Stop(ExecStreamOutcome::Completed(result)) => assert_eq!(result.exit_code, -1),
        other => panic!("unexpected step {other:?}"),
    }
}

#[test]
fn a_command_stops_when_cancelled_or_out_of_time() {
    let mut capture = Capture { stdout: String::new(), stderr: String::new() };
    assert_eq!(
        exec_with_streaming(&mut capture, &StreamEvent::Cancelled),
        StreamStep::Stop(ExecStreamOutcome::Cancelled)
    );
    assert_eq!(
        exec_with_streaming(&mut capture, &StreamEvent::TimedOut),
        StreamStep::Stop(ExecStreamOutcome::TimedOut)
    );
}

#[test]
fn listeners_hear_of_text_only() {
    let mut stdout = String::new();
    let mut stderr = String::new();
    assert!(process_output_line(&OutputLine::Stdout("a".to_string()), &mut stdout, &mut stderr));
    assert!(process_output_line(&OutputLine::Stderr("b".to_string()), &mut stdout, &mut stderr));
    assert!(!process_output_line(&OutputLine::ExitCode(0), &mut stdout, &mut stderr));
    assert_eq!(stdout, "a\n");
    assert_eq!(stderr, "b\n");
}

#[test]
fn results_need_a_file_with_content() {
    let xml = r#"<testcase name="a"/>"#.to_string();
    assert_eq!(
        try_download_results(true, true, Some(xml.clone())),
        Some((xml.clone(), 1))
    );
    assert_eq!(try_download_results(false, true, Some(xml.clone())), None);
    assert_eq!(try_download_results(true, false, Some(xml)), None);
    assert_eq!(try_download_results(true, true, Some(String::new())), None);
    assert_eq!(try_download_results(true, true, None), None);
}

#[test]
fn artifacts_are_packed_by_find_and_tar() {
    let r = runner(&["*.log"], false);
    let plan = r.plan_artifacts().expect("there are globs");
    assert_eq!(plan.tar_remote_path, "/tmp/offload-artifacts-sb_1-4.tar.gz");
    assert_eq!(plan.command.program, "sh");
    assert_eq!(
        plan.command.args,
        vec![
            "-c".to_string(),
            "find . -type f -path './*.log' -print0 | tar czf \
             /tmp/offload-artifacts-sb_1-4.tar.gz --null -T - 2>/dev/null"
                .to_string(),
        ]
    );
    assert_eq!(plan.destination, ("sb_1".to_string(), "4".to_string()));
    assert!(runner(&[], false).plan_artifacts().is_none());
}

fn play_artifacts(replies: &[ArtifactReply]) -> ArtifactStage {
    let mut stage = ArtifactStage::Packing;
    for reply in replies {
        stage = try_download_artifacts(stage, *reply);
    }
    stage
}

#[test]
fn artifacts_are_fetched_step_by_step() {
    let good = ArtifactReply::Good;
    let bad = ArtifactReply::Bad;
    assert_eq!(
        play_artifacts(&[good, good, good, ArtifactReply::Size(10), good, good]),
        ArtifactStage::Finished { fetched: true }
    );
    let nothing = ArtifactStage::Finished { fetched: false };
    assert_eq!(play_artifacts(&[bad]), nothing);
    assert_eq!(play_artifacts(&[good, bad, good]), nothing);
    assert_eq!(play_artifacts(&[good, good, good, ArtifactReply::Size(0), good]), nothing);
    assert_eq!(
        play_artifacts(&[good, good, good, ArtifactReply::Size(1), good, bad]),
        nothing
    );
}

#[test]
fn duplicates_are_found() {
    let (again, unique) = duplicate_ids(&instances(&["a", "b", "a", "c", "a"]));
    assert_eq!(again, vec!["a".to_string(), "a".to_string()]);
    assert_eq!(unique, 3);
    let (again, unique) = duplicate_ids(&[]);
    assert!(again.is_empty());
    assert_eq!(unique, 0);
}

#[test]
fn the_runner_names_its_files() {
    let r = runner(&[], false);
    assert_eq!(r.result_path("xml"), "/tmp/sb/1-4.xml");
    assert_eq!(r.part_file(), "sb_1.xml");
    assert_eq!(r.timed_command(Command::new("true")).timeout_secs, Some(2));
}

#[test]
fn recordings_hold_every_test_in_order() {
    let tests = instances(&["a", "b", "c"]);
    let done = RunStage::Recording { failures: true };
    assert_eq!(
        recordings(&tests, done, &[true, false, true]),
        vec![("a".to_string(), true), ("b".to_string(), false), ("c".to_string(), true)]
    );
    assert_eq!(
        recordings(&tests[..1], RunStage::RecordingTimeout, &[]),
        vec![("a".to_string(), false)]
    );
    assert!(recordings(&tests, RunStage::Downloading, &[]).is_empty());
}
