//! Commands for sandboxes, their output and what can go wrong.

use crate::config::schema;
use crate::ranking;
use crate::shell;
use crate::text;
use vstd::prelude::*;

verus! {

/// A command to run in a sandbox.
#[derive(Debug)]
pub struct Command {
    pub program: String,
    pub args: Vec<String>,
    /// Directory to run in, if not that of the sandbox.
    pub working_dir: Option<String>,
    /// Environment variables to set besides those of the sandbox.
    pub env: Vec<(String, String)>,
    /// Seconds after which the command is stopped.
    pub timeout_secs: Option<u64>,
}

/// What a command holds.
#[verifier::ext_equal]
pub struct CommandView {
    pub program: Seq<char>,
    pub args: Seq<Seq<char>>,
    pub working_dir: Option<Seq<char>>,
    pub env: Seq<(Seq<char>, Seq<char>)>,
    pub timeout_secs: Option<u64>,
}

impl View for Command {
    type V = CommandView;

    open spec fn view(&self) -> CommandView {
        CommandView {
            program: self.program@,
            args: text::views(self.args@),
            working_dir: schema::option_view(self.working_dir),
            env: schema::pair_views(self.env@),
            timeout_secs: self.timeout_secs,
        }
    }
}

impl Command {
    /// A command without arguments.
    pub fn new(program: &str) -> (r: Self)
        ensures
            r@ == (CommandView {
                program: program@,
                args: seq![],
                working_dir: None,
                env: seq![],
                timeout_secs: None,
            }),
    {
        let r = Command {
            program: program.to_owned(),
            args: Vec::new(),
            working_dir: None,
            env: Vec::new(),
            timeout_secs: None,
        };
        proof {
            assert(r@.args =~= seq![]);
            assert(r@.env =~= seq![]);
        }
        r
    }

    /// The command with one more argument.
    pub fn arg(self, arg: &str) -> (r: Self)
        ensures
            r@ == (CommandView { args: self@.args.push(arg@), ..self@ }),
    {
        let ghost before = self@;
        let mut r = self;
        r.args.push(arg.to_owned());
        proof {
            assert(r@.args =~= before.args.push(arg@));
        }
        r
    }

    /// The command, to be stopped after the given number of seconds.
    pub fn timeout(self, secs: u64) -> (r: Self)
        ensures
            r@ == (CommandView { timeout_secs: Some(secs), ..self@ }),
    {
        let mut r = self;
        r.timeout_secs = Some(secs);
        r
    }

    /// The program and its arguments as one line for a shell.
    pub fn to_shell_string(&self) -> (r: String)
        ensures
            r@ == shell::line_of(seq![self@.program] + self@.args),
    {
        shell::command_line(self.program.as_str(), &self.args)
    }
}

/// The line of a command reads back in a shell as its program and arguments.
pub proof fn a_shell_string_reads_back(cmd: CommandView)
    ensures
        shell::words_of(shell::line_of(seq![cmd.program] + cmd.args)) == Some(
            seq![cmd.program] + cmd.args,
        ),
{
    shell::a_line_of_quoted_words_reads_back(seq![cmd.program] + cmd.args);
}

/// A line of output, or the end of a command.
#[derive(Debug, PartialEq, Eq)]
pub enum OutputLine {
    Stdout(String),
    Stderr(String),
    ExitCode(i32),
}

/// What a finished command left behind.
#[derive(Debug, PartialEq, Eq)]
pub struct ExecResult {
    pub exit_code: i32,
    pub stdout: String,
    pub stderr: String,
}

/// What can go wrong with a sandbox.
#[derive(Debug, PartialEq, Eq)]
pub enum ProviderError {
    /// A command could not be run, or failed.
    ExecFailed(String),
    /// A file could not be fetched from the sandbox.
    DownloadFailed(String),
}

/// What a sandbox has cost so far, in millionths.
#[derive(Debug, Clone, Copy, PartialEq, Eq)]
pub struct CostEstimate {
    /// CPU time in microseconds.
    pub cpu_micros: u64,
    /// Estimated cost in millionths of a US dollar.
    pub estimated_micro_usd: u64,
}

impl Default for CostEstimate {
    fn default() -> (r: Self)
        ensures
            r.cpu_micros == 0,
            r.estimated_micro_usd == 0,
    {
        CostEstimate { cpu_micros: 0, estimated_micro_usd: 0 }
    }
}

/// The id printed by a command that creates something: its output without
/// surrounding white space.
pub open spec fn printed_id(stdout: Seq<char>) -> Seq<char> {
    text::trimmed(stdout)
}

/// Whether a command that creates something succeeded: it ended with code 0
/// and printed an id.
pub open spec fn created(exit_code: i32, stdout: Seq<char>) -> bool {
    exit_code == 0 && printed_id(stdout).len() > 0
}

/// The id printed by a command that creates a sandbox.
///
/// A failed command, and one that printed nothing, are errors; their texts
/// start with `what`.
pub fn created_id(what: &str, result: &ExecResult) -> (r: Result<String, ProviderError>)
    ensures
        match r {
            Ok(id) => created(result.exit_code, result.stdout@) && id@ == printed_id(
                result.stdout@,
            ),
            Err(ProviderError::ExecFailed(message)) => {
                &&& !created(result.exit_code, result.stdout@)
                &&& message@ == if result.exit_code != 0 {
                    what@ + " command failed: "@ + result.stderr@
                } else {
                    what@ + " command returned empty sandbox_id"@
                }
            },
            Err(_) => false,
        },
{
    let mut message: String = what.to_owned();
    if result.exit_code != 0 {
        text::push_text(&mut message, " command failed: ");
        text::push_text(&mut message, result.stderr.as_str());
        return Err(ProviderError::ExecFailed(message));
    }
    let id = text::trim_text(result.stdout.as_str());
    let chars = text::chars_of(id.as_str());
    if chars.len() == 0 {
        text::push_text(&mut message, " command returned empty sandbox_id");
        return Err(ProviderError::ExecFailed(message));
    }
    Ok(id)
}

/// The last line of text.
pub open spec fn last_line(s: Seq<char>) -> Seq<char>
    decreases s.len(),
{
    if s.len() == 0 || s.last() == '\n' {
        seq![]
    } else {
        last_line(s.drop_last()).push(s.last())
    }
}

/// The id of the image that a prepare command has printed: the last line of
/// its output, without surrounding white space.
pub open spec fn printed_image(stdout: Seq<char>) -> Seq<char> {
    text::trimmed(last_line(text::trimmed(stdout)))
}

/// The id of the image that a prepare command has printed; `None` where it is
/// empty.
pub fn image_id(stdout: &str) -> (r: Option<String>)
    ensures
        match r {
            Some(id) => id@ == printed_image(stdout@) && id@.len() > 0,
            None => printed_image(stdout@).len() == 0,
        },
{
    let whole = text::trim_text(stdout);
    let chars = text::chars_of(whole.as_str());
    let mut i: usize = chars.len();
    let mut tail: Vec<char> = Vec::new();
    proof {
        assert(chars@.take(chars@.len() as int) =~= chars@);
    }
    while i > 0 && chars[i - 1] != '\n'
        invariant
            0 <= i <= chars@.len(),
            last_line(chars@) == last_line(chars@.take(i as int)) + tail@.reverse(),
        decreases i,
    {
        let ghost tail0 = tail@;
        tail.push(chars[i - 1]);
        i -= 1;
        proof {
            let now = chars@.take(i as int + 1);
            assert(now.drop_last() =~= chars@.take(i as int));
            assert(last_line(chars@.take(i as int)) + tail@.reverse() =~= last_line(
                chars@.take(i as int),
            ).push(chars@[i as int]) + tail0.reverse());
        }
    }
    let line = text::text_of(&ranking::reversed(tail));
    proof {
        assert(last_line(chars@.take(i as int)) =~= seq![]);
        assert(line@ =~= last_line(chars@));
    }
    let id = text::trim_text(line.as_str());
    let left = text::chars_of(id.as_str());
    if left.len() == 0 {
        None
    } else {
        Some(id)
    }
}

/// Whether a command that prepares an image succeeded: it ended with code 0
/// and printed an id.
pub open spec fn prepared(exit_code: i32, stdout: Seq<char>) -> bool {
    exit_code == 0 && printed_image(stdout).len() > 0
}

/// The id of the image that a prepare command has printed.
///
/// A failed command, and one that printed no id, are errors; their texts start
/// with `what`.
pub fn prepared_id(what: &str, result: &ExecResult) -> (r: Result<String, ProviderError>)
    ensures
        match r {
            Ok(id) => prepared(result.exit_code, result.stdout@) && id@ == printed_image(
                result.stdout@,
            ),
            Err(ProviderError::ExecFailed(message)) => {
                &&& !prepared(result.exit_code, result.stdout@)
                &&& message@ == if result.exit_code != 0 {
                    what@ + " prepare command failed: "@ + result.stderr@
                } else {
                    what@ + " prepare command returned empty image_id"@
                }
            },
            Err(_) => false,
        },
{
    let mut message: String = what.to_owned();
    if result.exit_code != 0 {
        text::push_text(&mut message, " prepare command failed: ");
        text::push_text(&mut message, result.stderr.as_str());
        return Err(ProviderError::ExecFailed(message));
    }
    match image_id(result.stdout.as_str()) {
        Some(id) => Ok(id),
        None => {
            text::push_text(&mut message, " prepare command returned empty image_id");
            Err(ProviderError::ExecFailed(message))
        },
    }
}

/// Appends an option and its value.
pub fn push_option(cmd: &mut String, option: &str, value: &str)
    ensures
        final(cmd)@ == old(cmd)@ + option@ + value@,
{
    text::push_text(cmd, option);
    text::push_text(cmd, value);
}

/// Options that name directories to copy into an image: those of the
/// configuration, then those of the run as "local:remote".
pub open spec fn copy_dir_options(
    configured: Seq<Seq<char>>,
    copy_dirs: Seq<(Seq<char>, Seq<char>)>,
) -> Seq<char> {
    all_options(configured) + all_options(
        copy_dirs.map_values(|p: (Seq<char>, Seq<char>)| p.0 + ":"@ + p.1),
    )
}

/// One option for each directory.
pub open spec fn all_options(specs: Seq<Seq<char>>) -> Seq<char>
    decreases specs.len(),
{
    if specs.len() == 0 {
        seq![]
    } else {
        all_options(specs.drop_last()) + " --copy-dir="@ + specs.last()
    }
}

/// Appends the options that name directories to copy into an image.
pub fn push_copy_dirs(
    cmd: &mut String,
    configured: &Vec<String>,
    copy_dirs: &Vec<(String, String)>,
)
    ensures
        final(cmd)@ == old(cmd)@ + copy_dir_options(
            text::views(configured@),
            schema::pair_views(copy_dirs@),
        ),
{
    let ghost start = cmd@;
    let ghost specs = text::views(configured@);
    let ghost f = |p: (Seq<char>, Seq<char>)| p.0 + ":"@ + p.1;
    let ghost pairs = schema::pair_views(copy_dirs@).map_values(f);
    let mut i: usize = 0;
    proof {
        assert(start + all_options(specs.take(0)) =~= start);
    }
    while i < configured.len()
        invariant
            0 <= i <= configured@.len(),
            specs == text::views(configured@),
            cmd@ == start + all_options(specs.take(i as int)),
        decreases configured@.len() - i,
    {
        push_option(cmd, " --copy-dir=", configured[i].as_str());
        i += 1;
        proof {
            let now = specs.take(i as int);
            assert(now.drop_last() =~= specs.take(i - 1));
            assert(now.last() == configured@[i - 1]@);
            assert(cmd@ =~= start + all_options(now));
        }
    }
    let ghost mid = cmd@;
    let mut k: usize = 0;
    proof {
        assert(specs.take(i as int) =~= specs);
        assert(mid + all_options(pairs.take(0)) =~= mid);
    }
    while k < copy_dirs.len()
        invariant
            0 <= k <= copy_dirs@.len(),
            f == (|p: (Seq<char>, Seq<char>)| p.0 + ":"@ + p.1),
            pairs == schema::pair_views(copy_dirs@).map_values(f),
            cmd@ == mid + all_options(pairs.take(k as int)),
        decreases copy_dirs@.len() - k,
    {
        let ghost before = cmd@;
        push_option(cmd, " --copy-dir=", copy_dirs[k].0.as_str());
        push_option(cmd, ":", copy_dirs[k].1.as_str());
        k += 1;
        proof {
            let now = pairs.take(k as int);
            let p = copy_dirs@[k - 1];
            assert(now.drop_last() =~= pairs.take(k - 1));
            assert(now.last() == p.0@ + ":"@ + p.1@);
            assert(cmd@ =~= before + " --copy-dir="@ + (p.0@ + ":"@ + p.1@));
            assert(cmd@ =~= mid + all_options(now));
        }
    }
    proof {
        assert(pairs.take(k as int) =~= pairs);
        assert(cmd@ =~= start + copy_dir_options(specs, schema::pair_views(copy_dirs@)));
    }
}

} // verus!
