//! Provider that runs tests on Modal sandboxes.

use crate::config::schema;
use crate::config::schema::{ModalProviderConfig, SandboxConfig};
use crate::provider::command;
use crate::provider::command::{ExecResult, ProviderError};
use crate::provider::default::{DefaultSandbox, SandboxView};
use crate::shell;
use crate::text;
use serde::Serializer;
use vstd::prelude::*;

verus! {

/// What can go wrong when a value is written as JSON.
#[verifier::external_type_specification]
#[verifier::external_body]
pub struct ExJsonError(serde_json::Error);

/// A hexadecimal digit.
pub open spec fn hex_digit(n: int) -> char {
    if n < 10 {
        ('0' as int + n) as char
    } else {
        ('a' as int + n - 10) as char
    }
}

/// A character as it stands in a JSON string: a quote, a backslash and control
/// characters are escaped.
pub open spec fn escaped_char(c: char) -> Seq<char> {
    if c == '"' || c == '\\' {
        seq!['\\', c]
    } else if c == '\u{8}' {
        seq!['\\', 'b']
    } else if c == '\t' {
        seq!['\\', 't']
    } else if c == '\n' {
        seq!['\\', 'n']
    } else if c == '\u{c}' {
        seq!['\\', 'f']
    } else if c == '\r' {
        seq!['\\', 'r']
    } else if 32 > c as int {
        seq!['\\', 'u', '0', '0', hex_digit(c as int / 16), hex_digit(c as int % 16)]
    } else {
        seq![c]
    }
}

/// Text as it stands in a JSON string.
pub open spec fn escaped(s: Seq<char>) -> Seq<char>
    decreases s.len(),
{
    if s.len() == 0 {
        s
    } else {
        escaped(s.drop_last()) + escaped_char(s.last())
    }
}

/// A value as `serde_json::to_string` writes it.
pub uninterp spec fn json_value(value: serde_json::Value) -> Seq<char>;

/// A member of a JSON object: the name as a string, and the text of the value.
pub open spec fn json_member(name: Seq<char>, value: Seq<char>) -> Seq<char> {
    "\""@ + escaped(name) + "\":"@ + value
}

/// Options as a JSON object, in their order.
pub open spec fn options_json(options: Seq<(Seq<char>, serde_json::Value)>) -> Seq<char> {
    "{"@ + text::joined(
        options.map_values(
            |o: (Seq<char>, serde_json::Value)| json_member(o.0, json_value(o.1)),
        ),
        ","@,
    ) + "}"@
}

/// Views of options, in order.
pub open spec fn option_views(options: Seq<(String, serde_json::Value)>) -> Seq<
    (Seq<char>, serde_json::Value),
> {
    options.map_values(|o: (String, serde_json::Value)| (o.0@, o.1))
}

/// Writes options as a JSON object.
///
/// Calls `collect_map` of `serde_json::Serializer`. Claimed of it: it succeeds,
/// since every JSON value can be written and writing to memory does not fail;
/// and its text is the object with one member for each option, in their order:
/// the name as a JSON string, a colon, and the value as
/// `serde_json::to_string` writes it, with commas between the members.
#[verifier::external_body]
fn json_text(options: &Vec<(String, serde_json::Value)>) -> (r: Result<String, serde_json::Error>)
    ensures
        r is Ok,
        r->Ok_0@ == "{"@ + text::joined(
            option_views(options@).map_values(
                |o: (Seq<char>, serde_json::Value)| json_member(o.0, json_value(o.1)),
            ),
            ","@,
        ) + "}"@,
{
    let mut out: Vec<u8> = Vec::new();
    let members = options.iter().map(|(name, value)| (name, value));
    serde_json::Serializer::new(&mut out).collect_map(members)?;
    Ok(String::from_utf8_lossy(&out).into_owned())
}

/// The message of an error of `serde_json`, as `to_string` gives it. Nothing
/// is claimed of the text.
#[verifier::external_body]
fn json_error_text(e: &serde_json::Error) -> (r: String)
{
    e.to_string()
}

/// Options of a create command as they were written: none, JSON text, or the
/// message of the error.
pub enum OptionsText {
    Absent,
    Json(String),
    Failed(String),
}

/// The line that prepares an image, without its context directory.
pub open spec fn prepare_line(
    config: ModalProviderConfig,
    copy_dirs: Seq<(Seq<char>, Seq<char>)>,
    no_cache: bool,
    sandbox_init_cmd: Option<Seq<char>>,
) -> Seq<char> {
    "uv run @modal_sandbox.py prepare"@ + match config.dockerfile {
        Some(file) => " "@ + file@,
        None => seq![],
    } + if config.include_cwd {
        " --include-cwd"@
    } else {
        seq![]
    } + if no_cache {
        seq![]
    } else {
        " --cached"@
    } + command::copy_dir_options(text::views(config.copy_dirs@), copy_dirs)
        + match sandbox_init_cmd {
        Some(init) => " --sandbox-init-cmd="@ + shell::quoted(init),
        None => seq![],
    }
}

/// The line that creates a sandbox, without experimental options.
pub open spec fn create_line(config: ModalProviderConfig, image_id: Seq<char>) -> Seq<char> {
    "uv run @modal_sandbox.py create --cpu "@ + config.cpu_cores@ + " "@ + image_id
        + match config.memory_gb {
        Some(gb) => " --memory-gb "@ + gb@,
        None => seq![],
    }
}

/// The create command with its options.
pub open spec fn with_options(line: Seq<char>, json: Seq<char>) -> Seq<char> {
    line + " --experimental-options "@ + shell::quoted(json)
}

/// Message for options that could not be written.
pub open spec fn options_error(message: Seq<char>) -> Seq<char> {
    "Failed to serialize experimental_options: "@ + message
}

/// The line that creates a sandbox, with experimental options where there are
/// any.
pub open spec fn whole_create_line(config: ModalProviderConfig, image_id: Seq<char>) -> Seq<char> {
    let line = create_line(config, image_id);
    if config.experimental_options@.len() == 0 {
        line
    } else {
        with_options(line, options_json(option_views(config.experimental_options@)))
    }
}

/// The sandbox that the provider makes of an id and the variables of the run.
pub open spec fn sandbox_made(
    config: ModalProviderConfig,
    id: Seq<char>,
    env: Seq<(Seq<char>, Seq<char>)>,
) -> SandboxView {
    SandboxView {
        id,
        exec_command: "uv run @modal_sandbox.py exec {sandbox_id} {command}"@,
        destroy_command: "uv run @modal_sandbox.py destroy {sandbox_id}"@,
        download_command: Some("uv run @modal_sandbox.py download {sandbox_id} {paths}"@),
        exec_and_fetch_command: Some(
            "uv run @modal_sandbox.py exec-and-fetch {sandbox_id} {command} --fetch {fetch}"@,
        ),
        env: schema::pair_views(config.env@) + env,
        cpu_cores: config.cpu_cores@,
    }
}

/// Provider that runs tests on Modal sandboxes with simplified configuration.
///
/// Generates the Modal commands from high-level configuration options.
///
/// 1. `from_config()` stores the configuration only
/// 2. the prepare command builds the image, whose id is kept
/// 3. the create command provisions a sandbox from the prepared image
pub struct ModalProvider {
    config: ModalProviderConfig,
    image_id: Option<String>,
}

impl ModalProvider {
    /// The configuration of the provider.
    pub closed spec fn settings(&self) -> ModalProviderConfig {
        self.config
    }

    /// Id of the prepared image.
    pub closed spec fn image(&self) -> Option<Seq<char>> {
        schema::option_view(self.image_id)
    }

    /// Creates a new Modal provider from the given configuration.
    pub fn from_config(config: ModalProviderConfig) -> (r: Self)
        ensures
            r.settings() == config,
            r.image() is None,
    {
        ModalProvider { config, image_id: None }
    }

    /// Builds the shell command string for the `prepare` step.
    pub fn build_prepare_command(
        &self,
        copy_dirs: &Vec<(String, String)>,
        no_cache: bool,
        sandbox_init_cmd: Option<&str>,
    ) -> (r: String)
        ensures
            r@ == prepare_line(
                self.settings(),
                schema::pair_views(copy_dirs@),
                no_cache,
                (match sandbox_init_cmd {
                    Some(c) => Some(c@),
                    None => None,
                }),
            ),
    {
        let mut cmd: String = "uv run @modal_sandbox.py prepare".to_owned();
        let ghost c0 = cmd@;
        if let Some(dockerfile) = &self.config.dockerfile {
            command::push_option(&mut cmd, " ", dockerfile.as_str());
        }
        proof {
            assert(cmd@ =~= c0 + match self.config.dockerfile {
                Some(file) => " "@ + file@,
                None => seq![],
            });
        }
        let ghost c1 = cmd@;
        if self.config.include_cwd {
            text::push_text(&mut cmd, " --include-cwd");
        }
        proof {
            assert(cmd@ =~= c1 + if self.config.include_cwd {
                " --include-cwd"@
            } else {
                seq![]
            });
        }
        let ghost c2 = cmd@;
        if !no_cache {
            text::push_text(&mut cmd, " --cached");
        }
        proof {
            assert(cmd@ =~= c2 + if no_cache {
                seq![]
            } else {
                " --cached"@
            });
        }
        command::push_copy_dirs(&mut cmd, &self.config.copy_dirs, copy_dirs);
        crate::provider::default::push_init_cmd(&mut cmd, sandbox_init_cmd);
        cmd
    }

    /// The command line that prepares an image.
    pub fn prepare_command(
        &self,
        copy_dirs: &Vec<(String, String)>,
        no_cache: bool,
        sandbox_init_cmd: Option<&str>,
        context_dir: Option<&str>,
    ) -> (r: String)
        ensures
            r@ == prepare_line(
                self.settings(),
                schema::pair_views(copy_dirs@),
                no_cache,
                (match sandbox_init_cmd {
                    Some(c) => Some(c@),
                    None => None,
                }),
            ) + match context_dir {
                Some(dir) => " --context-dir="@ + dir@,
                None => seq![],
            },
    {
        let mut cmd = self.build_prepare_command(copy_dirs, no_cache, sandbox_init_cmd);
        crate::provider::default::push_context_dir(&mut cmd, context_dir);
        cmd
    }

    /// Keeps the id of the prepared image.
    pub fn prepared(&mut self, image_id: String)
        ensures
            final(self).image() == Some(image_id@),
            final(self).settings() == old(self).settings(),
    {
        self.image_id = Some(image_id);
    }

    /// The command line that creates a sandbox from an image, by the text of
    /// the experimental options.
    pub fn create_command_with(&self, image_id: &str, options: OptionsText) -> (r: Result<
        String,
        ProviderError,
    >)
        ensures
            match (options, r) {
                (OptionsText::Absent, Ok(cmd)) => cmd@ == create_line(self.settings(), image_id@),
                (OptionsText::Json(json), Ok(cmd)) => cmd@ == with_options(
                    create_line(self.settings(), image_id@),
                    json@,
                ),
                (OptionsText::Failed(message), Err(ProviderError::ExecFailed(m))) => m@
                    == options_error(message@),
                _ => false,
            },
    {
        let mut cmd: String = "uv run @modal_sandbox.py create --cpu ".to_owned();
        text::push_text(&mut cmd, self.config.cpu_cores.as_str());
        command::push_option(&mut cmd, " ", image_id);
        let ghost c0 = cmd@;
        if let Some(gb) = &self.config.memory_gb {
            command::push_option(&mut cmd, " --memory-gb ", gb.as_str());
        }
        proof {
            assert(cmd@ =~= c0 + match self.config.memory_gb {
                Some(gb) => " --memory-gb "@ + gb@,
                None => seq![],
            });
        }
        match options {
            OptionsText::Absent => Ok(cmd),
            OptionsText::Json(json) => {
                let word = shell::quote(json.as_str());
                command::push_option(&mut cmd, " --experimental-options ", word.as_str());
                Ok(cmd)
            },
            OptionsText::Failed(message) => {
                let mut m: String = "Failed to serialize experimental_options: ".to_owned();
                text::push_text(&mut m, message.as_str());
                Err(ProviderError::ExecFailed(m))
            },
        }
    }

    /// The text of the experimental options: absent where there are none.
    fn options_text(&self) -> (r: OptionsText)
        ensures
            match r {
                OptionsText::Absent => self.settings().experimental_options@.len() == 0,
                OptionsText::Json(json) => self.settings().experimental_options@.len() > 0 && json@
                    == options_json(option_views(self.settings().experimental_options@)),
                OptionsText::Failed(_) => false,
            },
    {
        if self.config.experimental_options.len() == 0 {
            return OptionsText::Absent;
        }
        match json_text(&self.config.experimental_options) {
            Ok(json) => OptionsText::Json(json),
            Err(e) => OptionsText::Failed(json_error_text(&e)),
        }
    }

    /// Builds the shell command string for the `create` step.
    ///
    /// Experimental options are passed on as JSON; where there are none, the
    /// command has no such option.
    pub fn build_create_command(&self, image_id: &str) -> (r: Result<String, ProviderError>)
        ensures
            r is Ok,
            r->Ok_0@ == whole_create_line(self.settings(), image_id@),
    {
        let options = self.options_text();
        self.create_command_with(image_id, options)
    }

    /// The command line that creates a sandbox from the prepared image. To
    /// create a sandbox before an image was prepared is an error.
    pub fn create_command(&self) -> (r: Result<String, ProviderError>)
        ensures
            match self.image() {
                None => r matches Err(ProviderError::ExecFailed(m)) && m@
                    == "Modal image ID not set; call prepare() before create_sandbox()"@,
                Some(image_id) => r is Ok && r->Ok_0@ == whole_create_line(
                    self.settings(),
                    image_id,
                ),
            },
    {
        match &self.image_id {
            Some(id) => self.build_create_command(id.as_str()),
            None => Err(
                ProviderError::ExecFailed(
                    "Modal image ID not set; call prepare() before create_sandbox()".to_owned(),
                ),
            ),
        }
    }

    /// The sandbox that the create command has made, by what it left behind.
    pub fn create_sandbox(&self, config: &SandboxConfig, result: &ExecResult) -> (r: Result<
        DefaultSandbox,
        ProviderError,
    >)
        ensures
            match r {
                Ok(sandbox) => command::created(result.exit_code, result.stdout@) && sandbox@
                    == sandbox_made(
                    self.settings(),
                    command::printed_id(result.stdout@),
                    config@.env,
                ),
                Err(ProviderError::ExecFailed(message)) => {
                    &&& !command::created(result.exit_code, result.stdout@)
                    &&& message@ == if result.exit_code != 0 {
                        "Modal create"@ + " command failed: "@ + result.stderr@
                    } else {
                        "Modal create"@ + " command returned empty sandbox_id"@
                    }
                },
                Err(_) => false,
            },
    {
        let id = match command::created_id("Modal create", result) {
            Ok(id) => id,
            Err(e) => {
                return Err(e);
            },
        };
        let mut env = self.base_env();
        schema::append_pairs(&mut env, &config.env);
        Ok(
            DefaultSandbox::new(
                id,
                "uv run @modal_sandbox.py exec {sandbox_id} {command}".to_owned(),
                "uv run @modal_sandbox.py destroy {sandbox_id}".to_owned(),
                Some("uv run @modal_sandbox.py download {sandbox_id} {paths}".to_owned()),
                Some(
                    "uv run @modal_sandbox.py exec-and-fetch {sandbox_id} {command} --fetch {fetch}".to_owned(),
                ),
                env,
                self.config.cpu_cores.clone(),
            ),
        )
    }

    /// Environment variables for all test processes.
    pub fn base_env(&self) -> (r: Vec<(String, String)>)
        ensures
            schema::pair_views(r@) == schema::pair_views(self.settings().env@),
            self.settings().wf() ==> schema::unique_names(schema::pair_views(r@)),
    {
        schema::copy_pairs(&self.config.env)
    }
}

} // verus!
