//! Configuration types and their defaults.
//!
//! Paths are held as their text, and so are numbers with a fraction (CPU
//! cores, memory, seconds), in the form in which they are printed.

use vstd::prelude::*;

verus! {

/// A JSON value.
#[verifier::external_type_specification]
#[verifier::external_body]
pub struct ExJsonValue(serde_json::Value);

/// Root configuration structure.
///
/// Contains all settings needed to run tests: core settings, provider
/// configuration, test framework configuration, and reporting options.
#[derive(Debug, Clone)]
pub struct Config {
    /// Core settings.
    pub offload: OffloadConfig,
    /// Where tests are run.
    pub provider: ProviderConfig,
    /// How tests are discovered and run.
    pub framework: FrameworkConfig,
    /// Named groups of tests.
    pub groups: Vec<(String, GroupConfig)>,
    /// Output generation.
    pub report: ReportConfig,
    /// Image caching, where it is wanted.
    pub checkpoint: Option<CheckpointConfig>,
    /// Cross-run test statistics; disabled when absent.
    pub history: Option<HistoryConfig>,
}

/// Core execution settings: how many tests run in parallel, timeout limits,
/// and retry behavior.
#[derive(Debug, Clone)]
pub struct OffloadConfig {
    /// Maximum number of sandboxes to run in parallel.
    pub max_parallel: usize,
    /// Timeout for the execution of a test batch in seconds.
    pub test_timeout_secs: u64,
    /// Working directory for test execution; the current one when absent.
    pub working_dir: Option<String>,
    /// Path to the repository root inside the sandbox.
    pub sandbox_repo_root: Option<String>,
    /// Working directory for test execution, if different from the repository
    /// root.
    pub sandbox_project_root: Option<String>,
    /// Command to run during image build, after directories are copied.
    pub sandbox_init_cmd: Option<String>,
    /// Command to run after the patch is applied to the sandbox.
    pub post_patch_cmd: Option<String>,
    /// Whether the scheduler queues each batch again when it is handed out.
    pub impatiently_requeue_batches: bool,
}

/// Sandboxes run in parallel unless configured.
pub fn default_max_parallel() -> (r: usize)
    ensures
        r == 10,
{
    10
}

/// Seconds that a test batch may take unless configured: 15 minutes.
pub fn default_test_timeout() -> (r: u64)
    ensures
        r == 900,
{
    900
}

/// Whether batches are queued again unless configured.
pub fn default_impatiently_requeue_batches() -> (r: bool)
    ensures
        r,
{
    true
}

/// Where tests run.
///
/// | Variant | Description |
/// |---------|-------------|
/// | `Local` | Local processes |
/// | `Default` | Custom shell commands |
/// | `Modal` | Modal sandboxes with simplified configuration |
#[derive(Debug, Clone)]
pub enum ProviderConfig {
    /// Run tests as local processes.
    Local(LocalProviderConfig),
    /// Run tests using custom shell commands.
    Default(DefaultProviderConfig),
    /// Run tests on Modal sandboxes with simplified configuration.
    Modal(ModalProviderConfig),
}

/// Configuration for the local process provider.
#[derive(Debug, Clone)]
pub struct LocalProviderConfig {
    /// Working directory for spawned processes; the current one when absent.
    pub working_dir: Option<String>,
    /// Environment variables to set for all test processes.
    pub env: Vec<(String, String)>,
    /// Shell to use for running commands, as `{shell} -c "{command}"`.
    pub shell: String,
}

impl LocalProviderConfig {
    /// Each environment variable is set once.
    pub open spec fn wf(&self) -> bool {
        unique_names(pair_views(self.env@))
    }
}

impl Default for LocalProviderConfig {
    fn default() -> (r: Self)
        ensures
            r.wf(),
            r.working_dir is None,
            r.env@.len() == 0,
            r.shell@ == "/bin/sh"@,
    {
        LocalProviderConfig { working_dir: None, env: Vec::new(), shell: default_shell() }
    }
}

/// Shell for local processes unless configured.
pub fn default_shell() -> (r: String)
    ensures
        r@ == "/bin/sh"@,
{
    "/bin/sh".to_owned()
}

/// Configuration for the Modal sandbox provider.
#[derive(Debug, Clone)]
pub struct ModalProviderConfig {
    /// Path to a Dockerfile for building the sandbox image; a default image
    /// is used when absent.
    pub dockerfile: Option<String>,
    /// Whether to copy the current working directory into the image.
    pub include_cwd: bool,
    /// Environment variables to set for all test processes.
    pub env: Vec<(String, String)>,
    /// Directories to copy into the image, each as "local_path:remote_path".
    pub copy_dirs: Vec<String>,
    /// CPU cores per sandbox.
    pub cpu_cores: String,
    /// Memory per sandbox in GiB, passed to Modal via `--memory-gb`.
    pub memory_gb: Option<String>,
    /// Options passed through to the sandbox create command as JSON.
    ///
    /// These are forwarded as `--experimental-options '{json}'` when non-empty.
    pub experimental_options: Vec<(String, serde_json::Value)>,
}

impl ModalProviderConfig {
    /// Each environment variable and each option is set once.
    pub open spec fn wf(&self) -> bool {
        &&& unique_names(pair_views(self.env@))
        &&& forall|i: int, j: int|
            0 <= i < j < self.experimental_options@.len() ==> (
            #[trigger] self.experimental_options@[i]).0@ != (
            #[trigger] self.experimental_options@[j]).0@
    }
}

impl Default for ModalProviderConfig {
    fn default() -> (r: Self)
        ensures
            r.wf(),
            r.dockerfile is None,
            !r.include_cwd,
            r.env@.len() == 0,
            r.copy_dirs@.len() == 0,
            r.cpu_cores@ == "0.125"@,
            r.memory_gb is None,
            r.experimental_options@.len() == 0,
    {
        ModalProviderConfig {
            dockerfile: None,
            include_cwd: false,
            env: Vec::new(),
            copy_dirs: Vec::new(),
            cpu_cores: default_modal_cpu_cores(),
            memory_gb: None,
            experimental_options: Vec::new(),
        }
    }
}

/// Configuration for the custom remote execution provider.
///
/// Shell commands manage the sandbox lifecycle:
///
/// - **prepare_command** (optional): prints an image ID to stdout
/// - **create_command**: prints a unique sandbox ID to stdout (can use
///   `{image_id}`)
/// - **exec_command**: uses `{sandbox_id}` and `{command}`
/// - **destroy_command**: uses `{sandbox_id}`
/// - **download_command** (optional): uses `{sandbox_id}` and `{paths}`
/// - **exec_and_fetch_command** (optional): uses `{sandbox_id}`, `{command}`
///   and `{fetch}`
#[derive(Debug, Clone)]
pub struct DefaultProviderConfig {
    /// Command to prepare an image before sandbox creation.
    pub prepare_command: Option<String>,
    /// Command to create a new sandbox instance.
    pub create_command: String,
    /// Command to execute a test command on a sandbox.
    pub exec_command: String,
    /// Command to destroy a sandbox.
    pub destroy_command: String,
    /// Command to download files from a sandbox.
    pub download_command: Option<String>,
    /// Command to execute a test command and fetch a file in one go.
    pub exec_and_fetch_command: Option<String>,
    /// Local working directory for running the lifecycle commands.
    pub working_dir: Option<String>,
    /// Timeout for remote command execution in seconds.
    pub timeout_secs: u64,
    /// Directories to copy into the image, each as "local_path:remote_path".
    pub copy_dirs: Vec<String>,
    /// Environment variables to set for all test processes.
    pub env: Vec<(String, String)>,
    /// CPU cores per sandbox.
    pub cpu_cores: String,
}

impl DefaultProviderConfig {
    /// Each environment variable is set once.
    pub open spec fn wf(&self) -> bool {
        unique_names(pair_views(self.env@))
    }
}

/// Seconds that a remote command may take unless configured: one hour.
pub fn default_remote_timeout() -> (r: u64)
    ensures
        r == 3600,
{
    3600
}

/// CPU cores per sandbox of the default provider unless configured.
pub fn default_cpu_cores() -> (r: String)
    ensures
        r@ == "1"@,
{
    "1".to_owned()
}

/// CPU cores per Modal sandbox unless configured.
pub fn default_modal_cpu_cores() -> (r: String)
    ensures
        r@ == "0.125"@,
{
    "0.125".to_owned()
}

/// Configuration for a test group.
///
/// Groups allow segmenting tests for different retry behaviors or filtering.
#[derive(Debug, Clone)]
pub struct GroupConfig {
    /// Number of times to retry failed tests in this group. A test that
    /// passes on retry is marked as flaky.
    pub retry_count: usize,
    /// Filters appended to the test discovery command; none when empty.
    pub filters: String,
    /// Whether each test of this group gets a batch of its own.
    pub schedule_individual: bool,
}

impl Default for GroupConfig {
    fn default() -> (r: Self)
        ensures
            r.retry_count == 0,
            r.filters@ == ""@,
            !r.schedule_individual,
    {
        GroupConfig {
            retry_count: default_retry_count(),
            filters: "".to_owned(),
            schedule_individual: false,
        }
    }
}

/// How tests are found and run.
#[derive(Debug, Clone)]
pub enum FrameworkConfig {
    /// Discover and run Python tests with pytest.
    Pytest(PytestFrameworkConfig),
    /// Discover and run Rust tests with cargo test.
    Cargo(CargoFrameworkConfig),
    /// Discover and run tests with custom shell commands.
    Default(DefaultFrameworkConfig),
    /// Discover and run JavaScript/TypeScript tests with vitest.
    Vitest(VitestFrameworkConfig),
}

impl FrameworkConfig {
    /// Returns the test ID format string for this framework.
    ///
    /// The format string is used to construct test IDs from JUnit XML
    /// attributes. Available placeholders are `{name}` and `{classname}`.
    pub fn test_id_format(&self) -> (r: &str)
        ensures
            r@ == match *self {
                FrameworkConfig::Pytest(config) => config.test_id_format@,
                FrameworkConfig::Cargo(config) => config.test_id_format@,
                FrameworkConfig::Default(config) => config.test_id_format@,
                FrameworkConfig::Vitest(config) => config.test_id_format@,
            },
    {
        match self {
            FrameworkConfig::Pytest(config) => config.test_id_format.as_str(),
            FrameworkConfig::Cargo(config) => config.test_id_format.as_str(),
            FrameworkConfig::Default(config) => config.test_id_format.as_str(),
            FrameworkConfig::Vitest(config) => config.test_id_format.as_str(),
        }
    }
}

/// Configuration for the pytest test framework.
#[derive(Debug, Clone)]
pub struct PytestFrameworkConfig {
    /// Directories to search for tests, relative to the working directory.
    pub paths: Option<Vec<String>>,
    /// Full command prefix for invoking pytest.
    pub command: String,
    /// Extra arguments appended only during test execution.
    pub run_args: Option<String>,
    /// Format string for constructing test IDs from JUnit XML attributes.
    pub test_id_format: String,
}

impl Default for PytestFrameworkConfig {
    fn default() -> (r: Self)
        ensures
            r.paths is None,
            r.command@ == "python -m pytest"@,
            r.run_args is None,
            r.test_id_format@ == "{name}"@,
    {
        PytestFrameworkConfig {
            paths: None,
            command: default_pytest_command(),
            run_args: None,
            test_id_format: default_pytest_test_id_format(),
        }
    }
}

/// Command prefix for pytest unless configured.
pub fn default_pytest_command() -> (r: String)
    ensures
        r@ == "python -m pytest"@,
{
    "python -m pytest".to_owned()
}

/// Test ID format for pytest unless configured.
pub fn default_pytest_test_id_format() -> (r: String)
    ensures
        r@ == "{name}"@,
{
    "{name}".to_owned()
}

/// Test ID format for cargo unless configured.
pub fn default_cargo_test_id_format() -> (r: String)
    ensures
        r@ == "{classname} {name}"@,
{
    "{classname} {name}".to_owned()
}

/// Command prefix for vitest unless configured.
pub fn default_vitest_command() -> (r: String)
    ensures
        r@ == "npx vitest"@,
{
    "npx vitest".to_owned()
}

/// Test ID format for vitest unless configured.
pub fn default_vitest_test_id_format() -> (r: String)
    ensures
        r@ == "{classname} > {name}"@,
{
    "{classname} > {name}".to_owned()
}

/// Configuration for the vitest test framework.
#[derive(Debug, Clone)]
pub struct VitestFrameworkConfig {
    /// Full command prefix for invoking vitest.
    pub command: String,
    /// Extra arguments appended only during test execution.
    pub run_args: Option<String>,
    /// Format string for constructing test IDs from JUnit XML attributes.
    pub test_id_format: String,
}

impl Default for VitestFrameworkConfig {
    fn default() -> (r: Self)
        ensures
            r.command@ == "npx vitest"@,
            r.run_args is None,
            r.test_id_format@ == "{classname} > {name}"@,
    {
        VitestFrameworkConfig {
            command: default_vitest_command(),
            run_args: None,
            test_id_format: default_vitest_test_id_format(),
        }
    }
}

/// Configuration for the Rust/Cargo test framework.
#[derive(Debug, Clone)]
pub struct CargoFrameworkConfig {
    /// Package to test in a Cargo workspace; all packages when absent.
    pub package: Option<String>,
    /// Cargo features to enable during testing.
    pub features: Vec<String>,
    /// Specific binary to test.
    pub bin: Option<String>,
    /// Include tests marked with `#[ignore]`.
    pub include_ignored: bool,
    /// Format string for constructing test IDs from JUnit XML attributes.
    pub test_id_format: String,
}

impl Default for CargoFrameworkConfig {
    fn default() -> (r: Self)
        ensures
            r.package is None,
            r.features@.len() == 0,
            r.bin is None,
            !r.include_ignored,
            r.test_id_format@ == "{classname} {name}"@,
    {
        CargoFrameworkConfig {
            package: None,
            features: Vec::new(),
            bin: None,
            include_ignored: false,
            test_id_format: default_cargo_test_id_format(),
        }
    }
}

/// Configuration for a custom test framework.
///
/// - **discover_command**: outputs one test ID per line to stdout
/// - **run_command**: uses `{tests}` for space-separated test IDs
/// - **result_file**: optional JUnit XML for detailed results
/// - **test_id_format**: format string for constructing test IDs
#[derive(Debug, Clone)]
pub struct DefaultFrameworkConfig {
    /// Command to discover test IDs; lines starting with `#` are comments.
    pub discover_command: String,
    /// Command template to run tests.
    pub run_command: String,
    /// Path to the JUnit XML result file produced by the test runner.
    pub result_file: Option<String>,
    /// Working directory for running test commands.
    pub working_dir: Option<String>,
    /// Format string for constructing test IDs from JUnit XML attributes.
    pub test_id_format: String,
}

/// Configuration for image checkpointing.
#[derive(Debug, Clone)]
pub struct CheckpointConfig {
    /// File paths whose contents are hashed to compute the image cache key.
    pub build_inputs: Vec<String>,
}

impl Default for CheckpointConfig {
    fn default() -> (r: Self)
        ensures
            r.build_inputs@.len() == 0,
    {
        CheckpointConfig { build_inputs: Vec::new() }
    }
}

/// Configuration for test result reporting.
#[derive(Debug, Clone)]
pub struct ReportConfig {
    /// Directory where report files are written.
    pub output_dir: String,
    /// Whether a JUnit XML file is written.
    pub junit: bool,
    /// Filename for JUnit XML output.
    pub junit_file: String,
    /// Glob patterns for files to download from sandboxes after each batch.
    pub download_globs: Vec<String>,
    /// Whether files are downloaded only for batches that had failures.
    pub download_globs_failure_only: bool,
}

impl Default for ReportConfig {
    fn default() -> (r: Self)
        ensures
            r.output_dir@ == "test-results"@,
            r.junit,
            r.junit_file@ == "junit.xml"@,
            r.download_globs@.len() == 0,
            !r.download_globs_failure_only,
    {
        ReportConfig {
            output_dir: default_report_dir(),
            junit: default_junit(),
            junit_file: default_junit_file(),
            download_globs: Vec::new(),
            download_globs_failure_only: false,
        }
    }
}

/// Directory for reports unless configured.
pub fn default_report_dir() -> (r: String)
    ensures
        r@ == "test-results"@,
{
    "test-results".to_owned()
}

/// When test history is recorded.
#[derive(Debug, Clone, Copy, PartialEq, Eq, Structural)]
pub enum RecordHistory {
    /// After every run.
    Always,
    /// Only when asked for on the command line.
    Flag,
}

/// Configuration for test history storage.
#[derive(Debug, Clone)]
pub struct HistoryConfig {
    /// When to record history.
    pub record_history: RecordHistory,
    /// Path to the history file.
    pub path: String,
    /// Number of success samples, and of failure samples, kept per test.
    pub reservoir_size: usize,
    /// Duration in seconds to expect when no history is available.
    pub default_duration_secs: String,
}

impl Default for HistoryConfig {
    fn default() -> (r: Self)
        ensures
            r.record_history == RecordHistory::Flag,
            r.path@ == "offload-history.jsonl"@,
            r.reservoir_size == 20,
            r.default_duration_secs@ == "1"@,
    {
        HistoryConfig {
            record_history: default_record_history(),
            path: default_history_path(),
            reservoir_size: default_reservoir_size(),
            default_duration_secs: default_duration_secs(),
        }
    }
}

/// Whether JUnit XML is written unless configured.
pub fn default_junit() -> (r: bool)
    ensures
        r,
{
    true
}

/// Filename for JUnit XML unless configured.
pub fn default_junit_file() -> (r: String)
    ensures
        r@ == "junit.xml"@,
{
    "junit.xml".to_owned()
}

/// Retries of a group unless configured.
pub fn default_retry_count() -> (r: usize)
    ensures
        r == 0,
{
    0
}

/// When history is recorded unless configured.
pub fn default_record_history() -> (r: RecordHistory)
    ensures
        r == RecordHistory::Flag,
{
    RecordHistory::Flag
}

/// Path of the history file unless configured.
pub fn default_history_path() -> (r: String)
    ensures
        r@ == "offload-history.jsonl"@,
{
    "offload-history.jsonl".to_owned()
}

/// Samples kept per outcome and test unless configured.
pub fn default_reservoir_size() -> (r: usize)
    ensures
        r == 20,
{
    20
}

/// Seconds to expect without history unless configured.
pub fn default_duration_secs() -> (r: String)
    ensures
        r@ == "1"@,
{
    "1".to_owned()
}

/// Runtime configuration passed to sandbox creation.
#[derive(Debug)]
pub struct SandboxConfig {
    /// Unique identifier for this sandbox instance.
    pub id: String,
    /// Working directory inside the sandbox.
    pub working_dir: Option<String>,
    /// Environment variables to set in the sandbox.
    pub env: Vec<(String, String)>,
    /// Directories to copy to the sandbox, as (local path, remote path).
    pub copy_dirs: Vec<(String, String)>,
}

/// What a runtime configuration holds.
#[verifier::ext_equal]
pub struct SandboxConfigView {
    pub id: Seq<char>,
    pub working_dir: Option<Seq<char>>,
    pub env: Seq<(Seq<char>, Seq<char>)>,
    pub copy_dirs: Seq<(Seq<char>, Seq<char>)>,
}

/// Views of pairs of strings, in order.
pub open spec fn pair_views(pairs: Seq<(String, String)>) -> Seq<(Seq<char>, Seq<char>)> {
    pairs.map_values(|p: (String, String)| (p.0@, p.1@))
}

/// Whether no name occurs twice.
pub open spec fn unique_names(pairs: Seq<(Seq<char>, Seq<char>)>) -> bool {
    forall|i: int, j: int|
        0 <= i < j < pairs.len() ==> (#[trigger] pairs[i]).0 != (#[trigger] pairs[j]).0
}

/// The view of optional text.
pub open spec fn option_view(s: Option<String>) -> Option<Seq<char>> {
    match s {
        Some(t) => Some(t@),
        None => None,
    }
}

impl View for SandboxConfig {
    type V = SandboxConfigView;

    open spec fn view(&self) -> SandboxConfigView {
        SandboxConfigView {
            id: self.id@,
            working_dir: option_view(self.working_dir),
            env: pair_views(self.env@),
            copy_dirs: pair_views(self.copy_dirs@),
        }
    }
}

/// A copy of pairs of strings.
pub fn copy_pairs(pairs: &Vec<(String, String)>) -> (r: Vec<(String, String)>)
    ensures
        pair_views(r@) == pair_views(pairs@),
{
    let mut out: Vec<(String, String)> = Vec::new();
    append_pairs(&mut out, pairs);
    proof {
        assert(pair_views(Seq::<(String, String)>::empty()) =~= seq![]);
        assert(pair_views(out@) =~= pair_views(pairs@));
    }
    out
}

/// Appends copies of pairs of strings.
pub fn append_pairs(to: &mut Vec<(String, String)>, pairs: &Vec<(String, String)>)
    ensures
        pair_views(final(to)@) == pair_views(old(to)@) + pair_views(pairs@),
{
    let ghost before = to@;
    let mut i: usize = 0;
    while i < pairs.len()
        invariant
            0 <= i <= pairs@.len(),
            to@.len() == before.len() + i,
            forall|j: int| 0 <= j < before.len() ==> #[trigger] to@[j] == before[j],
            forall|j: int|
                before.len() <= j < to@.len() ==> ((#[trigger] to@[j]).0@, to@[j].1@) == (
                    pairs@[j - before.len()].0@,
                    pairs@[j - before.len()].1@,
                ),
        decreases pairs@.len() - i,
    {
        to.push((pairs[i].0.clone(), pairs[i].1.clone()));
        i += 1;
    }
    proof {
        assert(pair_views(to@) =~= pair_views(before) + pair_views(pairs@));
    }
}

/// A copy of optional text.
pub fn copy_option(s: &Option<String>) -> (r: Option<String>)
    ensures
        option_view(r) == option_view(*s),
{
    match s {
        Some(t) => Some(t.clone()),
        None => None,
    }
}

impl Clone for SandboxConfig {
    fn clone(&self) -> (r: Self)
        ensures
            r@ == self@,
    {
        SandboxConfig {
            id: self.id.clone(),
            working_dir: copy_option(&self.working_dir),
            env: copy_pairs(&self.env),
            copy_dirs: copy_pairs(&self.copy_dirs),
        }
    }
}

} // verus!
