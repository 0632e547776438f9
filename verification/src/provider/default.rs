//! Provider that manages sandboxes through custom shell commands.

use crate::config::schema;
use crate::config::schema::{DefaultProviderConfig, SandboxConfig};
use crate::provider::command;
use crate::provider::command::{Command, CommandView, ExecResult, ProviderError};
use crate::shell;
use crate::text;
use vstd::prelude::*;

verus! {

/// Environment variable that names the directory to run in.
pub open spec fn root_key() -> Seq<char> {
    "OFFLOAD_ROOT"@
}

/// One variable in front of a command: its name, and its value as a word.
pub open spec fn assignment(p: (Seq<char>, Seq<char>)) -> Seq<char> {
    p.0 + "="@ + shell::quoted(p.1)
}

/// The variables in front of a command.
pub open spec fn env_prefix(env: Seq<(Seq<char>, Seq<char>)>) -> Seq<char> {
    text::joined(env.map_values(|p: (Seq<char>, Seq<char>)| assignment(p)), " "@)
}

/// The value of the first variable that names the directory to run in.
pub open spec fn root_of(env: Seq<(Seq<char>, Seq<char>)>) -> Option<Seq<char>>
    decreases env.len(),
{
    if env.len() == 0 {
        None
    } else if env[0].0 == root_key() {
        Some(env[0].1)
    } else {
        root_of(env.skip(1))
    }
}

/// The command line behind its variables.
pub open spec fn with_env(
    env: Seq<(Seq<char>, Seq<char>)>,
    program: Seq<char>,
    args: Seq<Seq<char>>,
) -> Seq<char> {
    let line = shell::line_of(seq![program] + args);
    if env.len() == 0 {
        line
    } else {
        env_prefix(env) + " "@ + line
    }
}

/// The whole line to run inside a sandbox: the command behind its variables,
/// and behind a change to the directory to run in, where there is one.
pub open spec fn inner_command(
    env: Seq<(Seq<char>, Seq<char>)>,
    program: Seq<char>,
    args: Seq<Seq<char>>,
) -> Seq<char> {
    match root_of(env) {
        Some(root) => "cd "@ + shell::quoted(root) + " && "@ + with_env(env, program, args),
        None => with_env(env, program, args),
    }
}

/// Path pairs as words "remote:local" separated by spaces.
pub open spec fn path_list(paths: Seq<(Seq<char>, Seq<char>)>) -> Seq<char> {
    text::joined(
        paths.map_values(
            |p: (Seq<char>, Seq<char>)| shell::quoted(p.0) + ":"@ + shell::quoted(p.1),
        ),
        " "@,
    )
}

/// A sandbox managed through shell command templates.
///
/// The sandbox maintains an `id` (returned by the create command) that is
/// substituted into the exec and destroy command templates.
#[derive(Debug)]
pub struct DefaultSandbox {
    pub id: String,
    pub exec_command: String,
    pub destroy_command: String,
    pub download_command: Option<String>,
    pub exec_and_fetch_command: Option<String>,
    pub env: Vec<(String, String)>,
    pub cpu_cores: String,
}

/// What a sandbox holds.
#[verifier::ext_equal]
pub struct SandboxView {
    pub id: Seq<char>,
    pub exec_command: Seq<char>,
    pub destroy_command: Seq<char>,
    pub download_command: Option<Seq<char>>,
    pub exec_and_fetch_command: Option<Seq<char>>,
    pub env: Seq<(Seq<char>, Seq<char>)>,
    pub cpu_cores: Seq<char>,
}

impl View for DefaultSandbox {
    type V = SandboxView;

    open spec fn view(&self) -> SandboxView {
        SandboxView {
            id: self.id@,
            exec_command: self.exec_command@,
            destroy_command: self.destroy_command@,
            download_command: schema::option_view(self.download_command),
            exec_and_fetch_command: schema::option_view(self.exec_and_fetch_command),
            env: schema::pair_views(self.env@),
            cpu_cores: self.cpu_cores@,
        }
    }
}

/// The line that runs a command on a sandbox.
pub open spec fn exec_line(s: SandboxView, cmd: CommandView) -> Seq<char> {
    text::replaced(
        text::replaced(s.exec_command, "{sandbox_id}"@, s.id),
        "{command}"@,
        shell::quoted(inner_command(s.env, cmd.program, cmd.args)),
    )
}

/// The line that destroys a sandbox.
pub open spec fn destroy_line(s: SandboxView) -> Seq<char> {
    text::replaced(s.destroy_command, "{sandbox_id}"@, s.id)
}

/// The line that downloads files, where there is a template for it.
pub open spec fn download_line(
    s: SandboxView,
    paths: Seq<(Seq<char>, Seq<char>)>,
) -> Option<Seq<char>> {
    match s.download_command {
        Some(template) => Some(
            text::replaced(
                text::replaced(template, "{sandbox_id}"@, s.id),
                "{paths}"@,
                path_list(paths),
            ),
        ),
        None => None,
    }
}

/// The line that runs a command and fetches a file, where there is a template
/// for it.
pub open spec fn exec_and_fetch_line(
    s: SandboxView,
    cmd: CommandView,
    remote: Seq<char>,
    local: Seq<char>,
) -> Option<Seq<char>> {
    match s.exec_and_fetch_command {
        Some(template) => Some(
            text::replaced(
                text::replaced(
                    text::replaced(template, "{sandbox_id}"@, s.id),
                    "{command}"@,
                    shell::quoted(inner_command(s.env, cmd.program, cmd.args)),
                ),
                "{fetch}"@,
                shell::quoted(remote + ":"@ + local),
            ),
        ),
        None => None,
    }
}

impl DefaultSandbox {
    /// Creates a new sandbox with the given command templates.
    pub fn new(
        id: String,
        exec_command: String,
        destroy_command: String,
        download_command: Option<String>,
        exec_and_fetch_command: Option<String>,
        env: Vec<(String, String)>,
        cpu_cores: String,
    ) -> (r: Self)
        ensures
            r@ == (SandboxView {
                id: id@,
                exec_command: exec_command@,
                destroy_command: destroy_command@,
                download_command: schema::option_view(download_command),
                exec_and_fetch_command: schema::option_view(exec_and_fetch_command),
                env: schema::pair_views(env@),
                cpu_cores: cpu_cores@,
            }),
    {
        DefaultSandbox {
            id,
            exec_command,
            destroy_command,
            download_command,
            exec_and_fetch_command,
            env,
            cpu_cores,
        }
    }

    /// Id of the sandbox.
    pub fn id(&self) -> (r: &str)
        ensures
            r@ == self@.id,
    {
        self.id.as_str()
    }

    /// Builds the inner shell command (env prefix + program + args, optionally
    /// wrapped in `cd OFFLOAD_ROOT && ...`).
    pub fn build_inner_shell_command(&self, cmd: &Command) -> (r: String)
        ensures
            r@ == inner_command(self@.env, cmd@.program, cmd@.args),
    {
        let ghost env = self@.env;
        let ghost f = |p: (Seq<char>, Seq<char>)| assignment(p);
        let mut parts: Vec<String> = Vec::new();
        let mut root: Option<String> = None;
        let mut i: usize = 0;
        proof {
            assert(env.skip(0) =~= env);
        }
        while i < self.env.len()
            invariant
                0 <= i <= self.env@.len(),
                env == self@.env,
                parts@.len() == i,
                forall|j: int| 0 <= j < i ==> (#[trigger] parts@[j])@ == assignment(env[j]),
                match root {
                    Some(t) => root_of(env) == Some(t@),
                    None => root_of(env) == root_of(env.skip(i as int)),
                },
            decreases self.env@.len() - i,
        {
            let key = self.env[i].0.as_str();
            let value = self.env[i].1.as_str();
            let mut part: String = key.to_owned();
            text::push_text(&mut part, "=");
            let word = shell::quote(value);
            text::push_text(&mut part, word.as_str());
            parts.push(part);
            proof {
                assert(env[i as int] == (key@, value@));
                assert(env.skip(i as int)[0] == env[i as int]);
                assert(env.skip(i as int).skip(1) =~= env.skip(i + 1));
            }
            if root.is_none() && text::same(key, "OFFLOAD_ROOT") {
                root = Some(value.to_owned());
            }
            i += 1;
        }
        proof {
            assert(text::views(parts@) =~= env.map_values(f));
        }
        let mut inner = String::new();
        if self.env.len() > 0 {
            inner = text::join_texts(&parts, " ");
            text::push_text(&mut inner, " ");
        }
        let line = shell::command_line(cmd.program.as_str(), &cmd.args);
        text::push_text(&mut inner, line.as_str());
        proof {
            if env.len() == 0 {
                assert(inner@ =~= line@);
            }
            assert(inner@ == with_env(env, cmd@.program, cmd@.args));
        }
        match root {
            Some(dir) => {
                let mut out: String = "cd ".to_owned();
                let word = shell::quote(dir.as_str());
                text::push_text(&mut out, word.as_str());
                text::push_text(&mut out, " && ");
                text::push_text(&mut out, inner.as_str());
                out
            },
            None => inner,
        }
    }

    /// Builds the exec command with substitutions.
    pub fn build_exec_command(&self, cmd: &Command) -> (r: String)
        ensures
            r@ == exec_line(self@, cmd@),
    {
        proof {
            lemma_placeholders_are_not_empty();
        }
        let inner = self.build_inner_shell_command(cmd);
        let escaped = shell::quote(inner.as_str());
        let with_id = text::replace_text(
            self.exec_command.as_str(),
            "{sandbox_id}",
            self.id.as_str(),
        );
        text::replace_text(with_id.as_str(), "{command}", escaped.as_str())
    }

    /// Builds the destroy command with substitutions.
    pub fn build_destroy_command(&self) -> (r: String)
        ensures
            r@ == destroy_line(self@),
    {
        proof {
            lemma_placeholders_are_not_empty();
        }
        text::replace_text(self.destroy_command.as_str(), "{sandbox_id}", self.id.as_str())
    }

    /// Builds the download command with substitutions; `None` without a
    /// template.
    pub fn build_download_command(&self, paths: &Vec<(String, String)>) -> (r: Option<String>)
        ensures
            schema::option_view(r) == download_line(self@, schema::pair_views(paths@)),
    {
        let ghost pairs = schema::pair_views(paths@);
        let ghost f = |p: (Seq<char>, Seq<char>)|
            shell::quoted(p.0) + ":"@ + shell::quoted(p.1);
        let template = match &self.download_command {
            Some(t) => t.as_str(),
            None => {
                return None;
            },
        };
        let mut parts: Vec<String> = Vec::new();
        let mut i: usize = 0;
        while i < paths.len()
            invariant
                0 <= i <= paths@.len(),
                pairs == schema::pair_views(paths@),
                f == (|p: (Seq<char>, Seq<char>)|
                    shell::quoted(p.0) + ":"@ + shell::quoted(p.1)),
                parts@.len() == i,
                forall|j: int| 0 <= j < i ==> (#[trigger] parts@[j])@ == f(pairs[j]),
            decreases paths@.len() - i,
        {
            let mut part = shell::quote(paths[i].0.as_str());
            let local = shell::quote(paths[i].1.as_str());
            text::push_text(&mut part, ":");
            text::push_text(&mut part, local.as_str());
            parts.push(part);
            i += 1;
        }
        proof {
            lemma_placeholders_are_not_empty();
            assert(text::views(parts@) =~= pairs.map_values(f));
        }
        let list = text::join_texts(&parts, " ");
        let with_id = text::replace_text(template, "{sandbox_id}", self.id.as_str());
        Some(text::replace_text(with_id.as_str(), "{paths}", list.as_str()))
    }

    /// Builds the fused exec and fetch command with substitutions; `None`
    /// without a template.
    pub fn build_exec_and_fetch_command(
        &self,
        cmd: &Command,
        remote: &str,
        local: &str,
    ) -> (r: Option<String>)
        ensures
            schema::option_view(r) == exec_and_fetch_line(self@, cmd@, remote@, local@),
    {
        let template = match &self.exec_and_fetch_command {
            Some(t) => t.as_str(),
            None => {
                return None;
            },
        };
        proof {
            lemma_placeholders_are_not_empty();
        }
        let inner = self.build_inner_shell_command(cmd);
        let escaped = shell::quote(inner.as_str());
        let mut pair: String = remote.to_owned();
        text::push_text(&mut pair, ":");
        text::push_text(&mut pair, local);
        let fetch = shell::quote(pair.as_str());
        let with_id = text::replace_text(template, "{sandbox_id}", self.id.as_str());
        let with_cmd = text::replace_text(with_id.as_str(), "{command}", escaped.as_str());
        Some(text::replace_text(with_cmd.as_str(), "{fetch}", fetch.as_str()))
    }

    /// The line to run for a download: `None` where there is nothing to
    /// download or no way to.
    pub fn download(&self, paths: &Vec<(String, String)>) -> (r: Option<String>)
        ensures
            schema::option_view(r) == if paths@.len() == 0 {
                None
            } else {
                download_line(self@, schema::pair_views(paths@))
            },
    {
        if paths.len() == 0 {
            None
        } else {
            self.build_download_command(paths)
        }
    }

    /// Whether a download went well, by what its command left behind.
    pub fn downloaded(result: &ExecResult) -> (r: Result<(), ProviderError>)
        ensures
            match r {
                Ok(_) => result.exit_code == 0,
                Err(ProviderError::DownloadFailed(message)) => result.exit_code != 0 && message@
                    == "Download command failed: "@ + result.stderr@,
                Err(_) => false,
            },
    {
        if result.exit_code != 0 {
            let mut message: String = "Download command failed: ".to_owned();
            text::push_text(&mut message, result.stderr.as_str());
            return Err(ProviderError::DownloadFailed(message));
        }
        Ok(())
    }
}

proof fn lemma_placeholders_are_not_empty()
    ensures
        "{sandbox_id}"@.len() > 0,
        "{command}"@.len() > 0,
        "{paths}"@.len() > 0,
        "{fetch}"@.len() > 0,
        "{image_id}"@.len() > 0,
        "{cpu_cores}"@.len() > 0,
{
    reveal_strlit("{sandbox_id}");
    reveal_strlit("{command}");
    reveal_strlit("{paths}");
    reveal_strlit("{fetch}");
    reveal_strlit("{image_id}");
    reveal_strlit("{cpu_cores}");
}

/// The line that prepares an image, where there is a command for it.
pub open spec fn prepare_line(
    prepare_command: Option<Seq<char>>,
    configured_dirs: Seq<Seq<char>>,
    copy_dirs: Seq<(Seq<char>, Seq<char>)>,
    no_cache: bool,
    sandbox_init_cmd: Option<Seq<char>>,
    context_dir: Option<Seq<char>>,
) -> Option<Seq<char>> {
    match prepare_command {
        Some(cmd) => Some(
            cmd + if no_cache {
                seq![]
            } else {
                " --cached"@
            } + command::copy_dir_options(configured_dirs, copy_dirs) + match sandbox_init_cmd {
                Some(init) => " --sandbox-init-cmd="@ + shell::quoted(init),
                None => seq![],
            } + match context_dir {
                Some(dir) => " --context-dir="@ + dir,
                None => seq![],
            },
        ),
        None => None,
    }
}

/// A template with the number of CPU cores filled in.
pub open spec fn with_cores(template: Seq<char>, cpu_cores: Seq<char>) -> Seq<char> {
    text::replaced(template, "{cpu_cores}"@, cpu_cores)
}

/// The line that creates a sandbox.
pub open spec fn create_line(
    template: Seq<char>,
    image_id: Option<Seq<char>>,
    cpu_cores: Seq<char>,
) -> Seq<char> {
    match image_id {
        Some(id) => with_cores(text::replaced(template, "{image_id}"@, id), cpu_cores),
        None => with_cores(template, cpu_cores),
    }
}

/// The sandbox that a provider makes of an id and the variables of the run.
pub open spec fn sandbox_made(
    config: DefaultProviderConfig,
    id: Seq<char>,
    env: Seq<(Seq<char>, Seq<char>)>,
) -> SandboxView {
    let cores = config.cpu_cores@;
    SandboxView {
        id,
        exec_command: with_cores(config.exec_command@, cores),
        destroy_command: with_cores(config.destroy_command@, cores),
        download_command: match config.download_command {
            Some(t) => Some(with_cores(t@, cores)),
            None => None,
        },
        exec_and_fetch_command: match config.exec_and_fetch_command {
            Some(t) => Some(with_cores(t@, cores)),
            None => None,
        },
        env: schema::pair_views(config.env@) + env,
        cpu_cores: cores,
    }
}

/// Provider that uses shell commands for sandbox lifecycle management.
///
/// The `create_command` must print a unique sandbox ID to stdout, which is
/// then used in subsequent exec and destroy commands. If `prepare_command` is
/// configured, it is run first, and the image ID that it prints is substituted
/// into `create_command` via the `{image_id}` placeholder.
pub struct DefaultProvider {
    config: DefaultProviderConfig,
    image_id: Option<String>,
}

impl DefaultProvider {
    /// The configuration of the provider.
    pub closed spec fn settings(&self) -> DefaultProviderConfig {
        self.config
    }

    /// Id of the prepared image.
    pub closed spec fn image(&self) -> Option<Seq<char>> {
        schema::option_view(self.image_id)
    }

    /// Creates a new provider from the given configuration.
    pub fn from_config(config: DefaultProviderConfig) -> (r: Self)
        ensures
            r.settings() == config,
            r.image() is None,
    {
        DefaultProvider { config, image_id: None }
    }

    /// The command line that prepares an image; `None` if no preparation is
    /// configured.
    pub fn build_prepare_command(
        &self,
        copy_dirs: &Vec<(String, String)>,
        no_cache: bool,
        sandbox_init_cmd: Option<&str>,
        context_dir: Option<&str>,
    ) -> (r: Option<String>)
        ensures
            schema::option_view(r) == prepare_line(
                schema::option_view(self.settings().prepare_command),
                text::views(self.settings().copy_dirs@),
                schema::pair_views(copy_dirs@),
                no_cache,
                (match sandbox_init_cmd {
                    Some(c) => Some(c@),
                    None => None,
                }),
                (match context_dir {
                    Some(d) => Some(d@),
                    None => None,
                }),
            ),
    {
        let mut cmd: String = match &self.config.prepare_command {
            Some(c) => c.clone(),
            None => {
                return None;
            },
        };
        let ghost c0 = cmd@;
        if !no_cache {
            text::push_text(&mut cmd, " --cached");
        }
        proof {
            assert(c0 + seq![] =~= c0);
        }
        command::push_copy_dirs(&mut cmd, &self.config.copy_dirs, copy_dirs);
        push_init_cmd(&mut cmd, sandbox_init_cmd);
        push_context_dir(&mut cmd, context_dir);
        Some(cmd)
    }

    /// Keeps the id of the prepared image.
    pub fn prepared(&mut self, image_id: Option<String>)
        ensures
            final(self).image() == schema::option_view(image_id),
            final(self).settings() == old(self).settings(),
    {
        self.image_id = image_id;
    }

    /// The command line that creates a sandbox.
    pub fn build_create_command(&self) -> (r: String)
        ensures
            r@ == create_line(
                self.settings().create_command@,
                self.image(),
                self.settings().cpu_cores@,
            ),
    {
        proof {
            lemma_placeholders_are_not_empty();
        }
        let cores = self.config.cpu_cores.as_str();
        match &self.image_id {
            Some(id) => {
                let with_image = text::replace_text(
                    self.config.create_command.as_str(),
                    "{image_id}",
                    id.as_str(),
                );
                text::replace_text(with_image.as_str(), "{cpu_cores}", cores)
            },
            None => text::replace_text(
                self.config.create_command.as_str(),
                "{cpu_cores}",
                cores,
            ),
        }
    }

    /// The sandbox that the create command has made, by what it left behind.
    pub fn create_sandbox(&self, config: &SandboxConfig, result: &ExecResult) -> (r: Result<
        DefaultSandbox,
        ProviderError,
    >)
        ensures
            match r {
                Ok(sandbox) => command::created(result.exit_code, result.stdout@) && sandbox@
                    == sandbox_made(
                    self.settings(),
                    command::printed_id(result.stdout@),
                    config@.env,
                ),
                Err(ProviderError::ExecFailed(message)) => {
                    &&& !command::created(result.exit_code, result.stdout@)
                    &&& message@ == if result.exit_code != 0 {
                        "Create"@ + " command failed: "@ + result.stderr@
                    } else {
                        "Create"@ + " command returned empty sandbox_id"@
                    }
                },
                Err(_) => false,
            },
    {
        let id = match command::created_id("Create", result) {
            Ok(id) => id,
            Err(e) => {
                return Err(e);
            },
        };
        proof {
            lemma_placeholders_are_not_empty();
        }
        let cores = self.config.cpu_cores.as_str();
        let mut env = self.base_env();
        schema::append_pairs(&mut env, &config.env);
        let exec_command = text::replace_text(
            self.config.exec_command.as_str(),
            "{cpu_cores}",
            cores,
        );
        let destroy_command = text::replace_text(
            self.config.destroy_command.as_str(),
            "{cpu_cores}",
            cores,
        );
        let download_command = fill_cores(&self.config.download_command, cores);
        let exec_and_fetch_command = fill_cores(&self.config.exec_and_fetch_command, cores);
        Ok(
            DefaultSandbox::new(
                id,
                exec_command,
                destroy_command,
                download_command,
                exec_and_fetch_command,
                env,
                cores.to_owned(),
            ),
        )
    }

    /// Environment variables for all test processes.
    pub fn base_env(&self) -> (r: Vec<(String, String)>)
        ensures
            schema::pair_views(r@) == schema::pair_views(self.settings().env@),
            self.settings().wf() ==> schema::unique_names(schema::pair_views(r@)),
    {
        schema::copy_pairs(&self.config.env)
    }
}

/// An optional template with the number of CPU cores filled in.
fn fill_cores(template: &Option<String>, cores: &str) -> (r: Option<String>)
    ensures
        schema::option_view(r) == match *template {
            Some(t) => Some(with_cores(t@, cores@)),
            None => None,
        },
{
    proof {
        lemma_placeholders_are_not_empty();
    }
    match template {
        Some(t) => Some(text::replace_text(t.as_str(), "{cpu_cores}", cores)),
        None => None,
    }
}

/// Appends the command to run during the image build, where there is one.
pub fn push_init_cmd(cmd: &mut String, sandbox_init_cmd: Option<&str>)
    ensures
        final(cmd)@ == old(cmd)@ + match sandbox_init_cmd {
            Some(init) => " --sandbox-init-cmd="@ + shell::quoted(init@),
            None => seq![],
        },
{
    let ghost c0 = cmd@;
    match sandbox_init_cmd {
        Some(init) => {
            let word = shell::quote(init);
            command::push_option(cmd, " --sandbox-init-cmd=", word.as_str());
            proof {
                assert(cmd@ =~= c0 + (" --sandbox-init-cmd="@ + shell::quoted(init@)));
            }
        },
        None => {
            proof {
                assert(c0 + Seq::<char>::empty() =~= c0);
            }
        },
    }
}

/// Appends the directory of the build context, where there is one.
pub fn push_context_dir(cmd: &mut String, context_dir: Option<&str>)
    ensures
        final(cmd)@ == old(cmd)@ + match context_dir {
            Some(dir) => " --context-dir="@ + dir@,
            None => seq![],
        },
{
    let ghost c0 = cmd@;
    match context_dir {
        Some(dir) => {
            command::push_option(cmd, " --context-dir=", dir);
            proof {
                assert(cmd@ =~= c0 + (" --context-dir="@ + dir@));
            }
        },
        None => {
            proof {
                assert(c0 + Seq::<char>::empty() =~= c0);
            }
        },
    }
}

/// Whether the name of a variable reads as it stands in a command line: no
/// character of it means something to a shell.
pub open spec fn plain_key(key: Seq<char>) -> bool {
    shell::is_bare(key)
}

/// Each variable as one word "key=value".
pub open spec fn env_words(env: Seq<(Seq<char>, Seq<char>)>) -> Seq<Seq<char>> {
    env.map_values(|p: (Seq<char>, Seq<char>)| p.0 + "="@ + p.1)
}

proof fn lemma_assignment_reads_back(p: (Seq<char>, Seq<char>))
    requires
        plain_key(p.0),
    ensures
        shell::words_of(assignment(p)) == Some(seq![p.0 + "="@ + p.1]),
{
    reveal_strlit("=");
    let front = p.0 + "="@;
    assert forall|i: int| 0 <= i < front.len() implies shell::is_plain(#[trigger] front[i]) by {
        if i < p.0.len() {
            assert(front[i] == p.0[i]);
            assert(!shell::is_special(p.0[i]));
        } else {
            assert(front[i] == '=');
        }
    }
    shell::plain_text_joins_the_word(front, shell::quoted(p.1), seq![]);
    shell::a_quoted_word_reads_back(p.1, front);
}

proof fn lemma_env_prefix_reads_back(env: Seq<(Seq<char>, Seq<char>)>)
    requires
        forall|i: int| 0 <= i < env.len() ==> plain_key((#[trigger] env[i]).0),
    ensures
        shell::words_of(env_prefix(env)) == Some(env_words(env)),
    decreases env.len(),
{
    let f = |p: (Seq<char>, Seq<char>)| assignment(p);
    let parts = env.map_values(f);
    if env.len() == 0 {
        assert(env_words(env) =~= seq![]);
    } else {
        let front = env.drop_last();
        lemma_assignment_reads_back(env.last());
        assert(parts.drop_last() =~= front.map_values(f));
        assert(parts.last() == assignment(env.last()));
        if env.len() == 1 {
            assert(env_words(env) =~= seq![env.last().0 + "="@ + env.last().1]);
        } else {
            assert forall|i: int| 0 <= i < front.len() implies plain_key((#[trigger] front[i]).0) by {
                assert(front[i] == env[i]);
            }
            lemma_env_prefix_reads_back(front);
            shell::a_space_separates_words(env_prefix(front), assignment(env.last()));
            assert(env_words(front) + seq![env.last().0 + "="@ + env.last().1] =~= env_words(env));
        }
    }
}

/// The line run inside a sandbox reads back in a shell as what was meant: the
/// change of directory, where there is one, each variable with its value, the
/// program and its arguments, whatever characters they hold.
pub proof fn an_inner_command_reads_back(
    env: Seq<(Seq<char>, Seq<char>)>,
    program: Seq<char>,
    args: Seq<Seq<char>>,
)
    requires
        forall|i: int| 0 <= i < env.len() ==> plain_key((#[trigger] env[i]).0),
    ensures
        shell::words_of(inner_command(env, program, args)) == Some(
            match root_of(env) {
                Some(root) => seq!["cd"@, root, "&&"@],
                None => seq![],
            } + env_words(env) + (seq![program] + args),
        ),
{
    let line = shell::line_of(seq![program] + args);
    let words = seq![program] + args;
    let rest = with_env(env, program, args);
    shell::a_line_of_quoted_words_reads_back(words);
    lemma_env_prefix_reads_back(env);
    if env.len() == 0 {
        assert(env_words(env) =~= seq![]);
        assert(env_words(env) + words =~= words);
    } else {
        shell::a_space_separates_words(env_prefix(env), line);
    }
    assert(shell::words_of(rest) == Some(env_words(env) + words));
    match root_of(env) {
        Some(root) => {
            reveal_strlit("cd ");
            reveal_strlit("cd");
            reveal_strlit(" ");
            reveal_strlit(" && ");
            reveal_strlit("&&");
            let q = shell::quoted(root);
            let whole = "cd "@ + q + " && "@ + rest;
            assert(whole =~= "cd"@ + " "@ + (q + " "@ + ("&&"@ + " "@ + rest)));
            lemma_plain_word("cd"@);
            lemma_plain_word("&&"@);
            shell::a_space_separates_words("&&"@, rest);
            shell::a_quoted_word_reads_back(root, seq![]);
            shell::a_space_separates_words(q, "&&"@ + " "@ + rest);
            shell::a_space_separates_words("cd"@, q + " "@ + ("&&"@ + " "@ + rest));
            assert(seq!["cd"@] + (seq![root] + (seq!["&&"@] + (env_words(env) + words))) =~= seq![
                "cd"@,
                root,
                "&&"@,
            ] + env_words(env) + words);
        },
        None => {
            assert(Seq::<Seq<char>>::empty() + env_words(env) + words =~= env_words(env) + words);
        },
    }
}

/// A command goes into a template as a single argument, and what that argument
/// holds is the line to run inside the sandbox.
pub proof fn a_command_is_a_single_argument(s: SandboxView, cmd: CommandView)
    ensures
        shell::words_of(shell::quoted(inner_command(s.env, cmd.program, cmd.args))) == Some(
            seq![inner_command(s.env, cmd.program, cmd.args)],
        ),
{
    shell::a_quoted_word_reads_back(inner_command(s.env, cmd.program, cmd.args), seq![]);
}

proof fn lemma_plain_word(w: Seq<char>)
    requires
        w.len() > 0,
        forall|i: int| 0 <= i < w.len() ==> shell::is_plain(#[trigger] w[i]),
    ensures
        shell::words_of(w) == Some(seq![w]),
{
    shell::plain_text_joins_the_word(w, seq![], seq![]);
    assert(w + seq![] =~= w);
}

/// Where a template holds the placeholders for the sandbox and the command
/// once each, in this order, and nothing else of the kind, the command line
/// holds the id and the command, as one word, in their places.
pub proof fn an_exec_template_is_filled(
    s: SandboxView,
    cmd: CommandView,
    head: Seq<char>,
    middle: Seq<char>,
    tail: Seq<char>,
)
    requires
        s.exec_command == head + "{sandbox_id}"@ + (middle + "{command}"@ + tail),
        forall|i: int|
            0 <= i < head.len() ==> !#[trigger] text::occurs_at(
                s.exec_command,
                "{sandbox_id}"@,
                i,
            ),
        !text::contains(middle + "{command}"@ + tail, "{sandbox_id}"@),
        forall|i: int|
            0 <= i < (head + s.id + middle).len() ==> !#[trigger] text::occurs_at(
                (head + s.id + middle) + "{command}"@ + tail,
                "{command}"@,
                i,
            ),
        !text::contains(tail, "{command}"@),
    ensures
        exec_line(s, cmd) == head + s.id + middle + shell::quoted(
            inner_command(s.env, cmd.program, cmd.args),
        ) + tail,
{
    lemma_placeholders_are_not_empty();
    let rest = middle + "{command}"@ + tail;
    let word = shell::quoted(inner_command(s.env, cmd.program, cmd.args));
    text::replacing_starts_at_the_first_match(head, rest, "{sandbox_id}"@, s.id);
    text::replacing_an_absent_pattern_changes_nothing(rest, "{sandbox_id}"@, s.id);
    let front = head + s.id + middle;
    assert(head + s.id + rest =~= front + "{command}"@ + tail);
    text::replacing_starts_at_the_first_match(front, tail, "{command}"@, word);
    text::replacing_an_absent_pattern_changes_nothing(tail, "{command}"@, word);
}

} // verus!
