//! Provider that runs tests as child processes on the local machine.

use crate::config::schema;
use crate::config::schema::{LocalProviderConfig, SandboxConfig};
use crate::provider::command::{Command, CostEstimate, ProviderError};
use crate::shell;
use crate::text;
use vstd::prelude::*;

verus! {

/// The directory of a sandbox: its own, else that of the provider, else the
/// current one, else ".".
pub open spec fn chosen_dir(
    own: Option<Seq<char>>,
    configured: Option<Seq<char>>,
    current: Option<Seq<char>>,
) -> Seq<char> {
    match (own, configured, current) {
        (Some(dir), _, _) => dir,
        (None, Some(dir), _) => dir,
        (None, None, Some(dir)) => dir,
        (None, None, None) => "."@,
    }
}

/// Provider that runs tests as local child processes.
///
/// Each sandbox is just a logical grouping with a shared configuration -
/// commands are run as child processes.
pub struct LocalProvider {
    config: LocalProviderConfig,
}

impl LocalProvider {
    /// The configuration of the provider.
    pub closed spec fn settings(&self) -> LocalProviderConfig {
        self.config
    }

    /// Creates a new process provider with the given configuration.
    pub fn new(config: LocalProviderConfig) -> (r: Self)
        ensures
            r.settings() == config,
    {
        LocalProvider { config }
    }

    /// Prepares no image: local processes need none.
    pub fn prepare(&self) -> (r: Result<Option<String>, ProviderError>)
        ensures
            r == Ok::<Option<String>, ProviderError>(None),
    {
        Ok(None)
    }

    /// A sandbox for local processes. `current_dir` is the directory of this
    /// process, where it is known.
    pub fn create_sandbox(&self, config: &SandboxConfig, current_dir: Option<&str>) -> (r: Result<
        LocalSandbox,
        ProviderError,
    >)
        ensures
            match r {
                Ok(s) => {
                    &&& s.id@ == config@.id
                    &&& s.working_dir@ == chosen_dir(
                        config@.working_dir,
                        schema::option_view(self.settings().working_dir),
                        match current_dir {
                            Some(d) => Some(d@),
                            None => None,
                        },
                    )
                    &&& schema::pair_views(s.env@) == config@.env
                    &&& s.shell@ == self.settings().shell@
                },
                Err(_) => false,
            },
    {
        let working_dir: String = match &config.working_dir {
            Some(dir) => dir.clone(),
            None => match &self.config.working_dir {
                Some(dir) => dir.clone(),
                None => match current_dir {
                    Some(dir) => dir.to_owned(),
                    None => ".".to_owned(),
                },
            },
        };
        Ok(
            LocalSandbox {
                id: config.id.clone(),
                working_dir,
                env: schema::copy_pairs(&config.env),
                shell: self.config.shell.clone(),
            },
        )
    }

    /// Environment variables for all test processes.
    pub fn base_env(&self) -> (r: Vec<(String, String)>)
        ensures
            schema::pair_views(r@) == schema::pair_views(self.settings().env@),
            self.settings().wf() ==> schema::unique_names(schema::pair_views(r@)),
    {
        schema::copy_pairs(&self.config.env)
    }
}

/// A sandbox that runs commands as local child processes.
///
/// Each command is executed via the configured shell. The sandbox provides a
/// consistent working directory and environment for all commands.
#[derive(Debug)]
pub struct LocalSandbox {
    pub id: String,
    pub working_dir: String,
    pub env: Vec<(String, String)>,
    pub shell: String,
}

/// A process to start.
#[derive(Debug)]
pub struct ProcessPlan {
    pub program: String,
    pub args: Vec<String>,
    pub current_dir: String,
    /// Environment variables to set, in this order.
    pub env: Vec<(String, String)>,
}

impl LocalSandbox {
    /// Id of the sandbox.
    pub fn id(&self) -> (r: &str)
        ensures
            r@ == self.id@,
    {
        self.id.as_str()
    }

    /// The process that runs a command: the shell with the command as one
    /// line, in the directory of the command or else of the sandbox, with the
    /// variables of the sandbox and then those of the command.
    pub fn exec_stream(&self, cmd: &Command) -> (r: ProcessPlan)
        ensures
            r.program@ == self.shell@,
            text::views(r.args@) == seq![
                "-c"@,
                shell::line_of(seq![cmd@.program] + cmd@.args),
            ],
            r.current_dir@ == match cmd@.working_dir {
                Some(dir) => dir,
                None => self.working_dir@,
            },
            schema::pair_views(r.env@) == schema::pair_views(self.env@) + cmd@.env,
    {
        let mut args: Vec<String> = Vec::new();
        args.push("-c".to_owned());
        args.push(cmd.to_shell_string());
        let mut env = schema::copy_pairs(&self.env);
        schema::append_pairs(&mut env, &cmd.env);
        let current_dir: String = match &cmd.working_dir {
            Some(dir) => dir.clone(),
            None => self.working_dir.clone(),
        };
        proof {
            assert(text::views(args@) =~= seq![
                "-c"@,
                shell::line_of(seq![cmd@.program] + cmd@.args),
            ]);
        }
        ProcessPlan { program: self.shell.clone(), args, current_dir, env }
    }

    /// Local processes cost nothing.
    pub fn cost_estimate(&self) -> (r: CostEstimate)
        ensures
            r.cpu_micros == 0,
            r.estimated_micro_usd == 0,
    {
        CostEstimate::default()
    }
}

} // verus!
