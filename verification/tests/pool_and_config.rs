use offload::config::schema::{
    default_cpu_cores, default_impatiently_requeue_batches, default_max_parallel,
    default_remote_timeout, default_test_timeout, CargoFrameworkConfig, CheckpointConfig,
    DefaultFrameworkConfig, FrameworkConfig, GroupConfig, HistoryConfig, LocalProviderConfig,
    ModalProviderConfig, PytestFrameworkConfig, RecordHistory, ReportConfig, SandboxConfig,
    VitestFrameworkConfig,
};
use offload::orchestrator::pool::SandboxPool;
use offload::provider::command::ProviderError;

fn config(id: &str) -> SandboxConfig {
    SandboxConfig { id: id.to_string(), working_dir: None, env: vec![], copy_dirs: vec![] }
}

#[test]
fn test_populate_creates_unique_sandbox_ids() {
    let mut pool: SandboxPool<String> = SandboxPool::new();
    let configs = SandboxPool::<String>::planned(4, &config("offload-test"));
    let created = configs.into_iter().map(|c| Ok(c.id)).collect();
    pool.populate(created).unwrap();

    let sandboxes = pool.take_all();
    assert_eq!(sandboxes.len(), 4);

    // All sandbox IDs must be unique
    let ids: std::collections::HashSet<_> = sandboxes.iter().cloned().collect();
    assert_eq!(ids.len(), 4, "expected 4 unique sandbox IDs, got {ids:?}");
    assert_eq!(sandboxes[3], "offload-test-3");
    assert!(pool.take_all().is_empty());
}

#[test]
fn planned_sandboxes_keep_the_rest_of_the_configuration() {
    let mut base = config("p");
    base.working_dir = Some("/w".to_string());
    base.env = vec![("K".to_string(), "V".to_string())];
    base.copy_dirs = vec![("a".to_string(), "b".to_string())];
    let planned = SandboxPool::<u8>::planned(11, &base.clone());
    assert_eq!(planned.len(), 11);
    assert_eq!(planned[10].id, "p-10");
    assert_eq!(planned[10].working_dir, base.working_dir);
    assert_eq!(planned[10].env, base.env);
    assert_eq!(planned[10].copy_dirs, base.copy_dirs);
}

#[test]
fn the_first_failed_creation_ends_populating() {
    let mut pool: SandboxPool<u8> = SandboxPool::default();
    let error = |m: &str| Err(ProviderError::ExecFailed(m.to_string()));
    let r = pool.populate(vec![Ok(1), Ok(2), error("one"), Ok(3), error("two")]);
    assert_eq!(r, Err(ProviderError::ExecFailed("one".to_string())));
    assert_eq!(pool.populate(vec![Ok(4)]), Ok(()));
    assert_eq!(pool.take_all(), vec![1, 2, 4]);
}

#[test]
fn framework_defaults() {
    let pytest = PytestFrameworkConfig::default();
    assert_eq!(pytest.command, "python -m pytest");
    assert_eq!(pytest.test_id_format, "{name}");
    assert!(pytest.paths.is_none() && pytest.run_args.is_none());
    let vitest = VitestFrameworkConfig::default();
    assert_eq!(vitest.command, "npx vitest");
    assert_eq!(vitest.test_id_format, "{classname} > {name}");
    let cargo = CargoFrameworkConfig::default();
    assert_eq!(cargo.test_id_format, "{classname} {name}");
    assert!(!cargo.include_ignored && cargo.features.is_empty());
}

#[test]
fn each_framework_has_its_id_format() {
    assert_eq!(FrameworkConfig::Pytest(Default::default()).test_id_format(), "{name}");
    assert_eq!(FrameworkConfig::Cargo(Default::default()).test_id_format(), "{classname} {name}");
    assert_eq!(
        FrameworkConfig::Vitest(Default::default()).test_id_format(),
        "{classname} > {name}"
    );
    let custom = FrameworkConfig::Default(DefaultFrameworkConfig {
        discover_command: "ls".to_string(),
        run_command: "run {tests}".to_string(),
        result_file: None,
        working_dir: None,
        test_id_format: "{classname}::{name}".to_string(),
    });
    assert_eq!(custom.test_id_format(), "{classname}::{name}");
}

#[test]
fn report_defaults() {
    let report = ReportConfig::default();
    assert_eq!(report.output_dir, "test-results");
    assert!(report.junit);
    assert_eq!(report.junit_file, "junit.xml");
    assert!(report.download_globs.is_empty());
    assert!(!report.download_globs_failure_only);
}

#[test]
fn history_defaults() {
    let history = HistoryConfig::default();
    assert_eq!(history.record_history, RecordHistory::Flag);
    assert_ne!(history.record_history, RecordHistory::Always);
    assert_eq!(history.path, "offload-history.jsonl");
    assert_eq!(history.reservoir_size, 20);
    assert_eq!(history.default_duration_secs, "1");
}

#[test]
fn provider_and_group_defaults() {
    let local = LocalProviderConfig::default();
    assert_eq!(local.shell, "/bin/sh");
    assert!(local.working_dir.is_none() && local.env.is_empty());
    let modal = ModalProviderConfig::default();
    assert_eq!(modal.cpu_cores, "0.125");
    assert!(modal.memory_gb.is_none() && modal.experimental_options.is_empty());
    let group = GroupConfig::default();
    assert_eq!(group.retry_count, 0);
    assert_eq!(group.filters, "");
    assert!(!group.schedule_individual);
    assert!(CheckpointConfig::default().build_inputs.is_empty());
}

#[test]
fn run_defaults() {
    assert_eq!(default_max_parallel(), 10);
    assert_eq!(default_test_timeout(), 900);
    assert_eq!(default_remote_timeout(), 3600);
    assert_eq!(default_cpu_cores(), "1");
    assert!(default_impatiently_requeue_batches());
}
