//! What holds of all sandboxes and of the commands that manage them.

use crate::config::schema::{DefaultProviderConfig, ModalProviderConfig};
use crate::provider::command;
use crate::provider::default::SandboxView;
use crate::provider::local;
use crate::provider::modal;
use crate::shell;
use crate::text;
use vstd::prelude::*;

verus! {

/// Whether place `i` holds the first variable that names the directory to run
/// in.
pub open spec fn names_root_first(env: Seq<(Seq<char>, Seq<char>)>, i: int) -> bool {
    &&& 0 <= i < env.len()
    &&& env[i].0 == "OFFLOAD_ROOT"@
    &&& forall|j: int| 0 <= j < i ==> (#[trigger] env[j]).0 != "OFFLOAD_ROOT"@
}

/// The directory to run in is the value of the first variable that names it,
/// and there is none where no variable does.
pub proof fn the_first_root_counts(env: Seq<(Seq<char>, Seq<char>)>)
    ensures
        forall|i: int| #[trigger]
            names_root_first(env, i) ==> crate::provider::default::root_of(env) == Some(env[i].1),
        (forall|i: int| 0 <= i < env.len() ==> (#[trigger] env[i]).0 != "OFFLOAD_ROOT"@)
            ==> crate::provider::default::root_of(env) is None,
    decreases env.len(),
{
    if env.len() > 0 {
        let rest = env.skip(1);
        the_first_root_counts(rest);
        assert forall|i: int| #[trigger] names_root_first(env, i) implies crate::provider::default::root_of(env)
            == Some(env[i].1) by {
            if i > 0 {
                assert(env[0].0 != "OFFLOAD_ROOT"@);
                assert forall|j: int| 0 <= j < i - 1 implies (#[trigger] rest[j]).0
                    != "OFFLOAD_ROOT"@ by {
                    assert(rest[j] == env[j + 1]);
                }
                assert(names_root_first(rest, i - 1));
            }
        }
        if forall|i: int| 0 <= i < env.len() ==> (#[trigger] env[i]).0 != "OFFLOAD_ROOT"@ {
            assert(env[0].0 != "OFFLOAD_ROOT"@);
            assert forall|j: int| 0 <= j < rest.len() implies (#[trigger] rest[j]).0
                != "OFFLOAD_ROOT"@ by {
                assert(rest[j] == env[j + 1]);
            }
        }
    }
}

proof fn lemma_blank_is_trimmed_away(s: Seq<char>)
    ensures
        text::trimmed(s).len() == 0 <==> text::blank(s),
{
    let ends = text::trimming_takes_white_space_off_both_ends(s);
    let t = text::trimmed(s);
    let (a, b) = ends;
    if t.len() == 0 {
        assert forall|i: int| 0 <= i < s.len() implies text::is_space(#[trigger] s[i]) by {
            if i < a.len() {
                assert(a[i] == s[i]);
            } else {
                assert(b[i - a.len()] == s[i]);
            }
        }
    } else {
        assert(s[a.len() as int] == t[0]);
    }
}

/// A sandbox is created where the command ended with code 0 and printed more
/// than white space; its id is what was printed, from the first character to
/// the last that is not white space.
pub proof fn the_printed_text_is_the_id(exit_code: i32, stdout: Seq<char>) -> (ends: (
    Seq<char>,
    Seq<char>,
))
    ensures
        command::created(exit_code, stdout) <==> exit_code == 0 && !text::blank(stdout),
        stdout == ends.0 + command::printed_id(stdout) + ends.1,
        text::blank(ends.0),
        text::blank(ends.1),
        !text::blank(stdout) ==> !text::is_space(command::printed_id(stdout)[0])
            && !text::is_space(command::printed_id(stdout).last()),
{
    lemma_blank_is_trimmed_away(stdout);
    text::trimming_takes_white_space_off_both_ends(stdout)
}

proof fn lemma_last_line(s: Seq<char>) -> (before: Seq<char>)
    ensures
        s == before + command::last_line(s),
        before.len() == 0 || before.last() == '\n',
        forall|i: int|
            0 <= i < command::last_line(s).len() ==> #[trigger] command::last_line(s)[i] != '\n',
    decreases s.len(),
{
    if s.len() == 0 || s.last() == '\n' {
        assert(s =~= s + command::last_line(s));
        s
    } else {
        let before = lemma_last_line(s.drop_last());
        assert(s =~= s.drop_last().push(s.last()));
        assert((before + command::last_line(s.drop_last())).push(s.last()) =~= before
            + command::last_line(s));
        before
    }
}

/// An image is prepared where the command ended with code 0 and printed more
/// than white space. Its id stands on the last line that is not blank: only
/// white space follows it, only white space stands before it on its line, and
/// it holds no line break and neither starts nor ends with white space.
pub proof fn the_last_line_is_the_image(exit_code: i32, stdout: Seq<char>) -> (around: (
    Seq<char>,
    Seq<char>,
    Seq<char>,
))
    ensures
        command::prepared(exit_code, stdout) <==> exit_code == 0 && !text::blank(stdout),
        ({
            let id = command::printed_image(stdout);
            let (before, indent, after) = around;
            &&& stdout == before + indent + id + after
            &&& text::blank(before) || before.last() == '\n'
            &&& text::blank(indent)
            &&& text::blank(after)
            &&& forall|i: int| 0 <= i < id.len() ==> #[trigger] id[i] != '\n'
            &&& !text::blank(stdout) ==> id.len() > 0 && !text::is_space(id[0])
                && !text::is_space(id.last())
        }),
{
    let (head, tail) = text::trimming_takes_white_space_off_both_ends(stdout);
    let whole = text::trimmed(stdout);
    let lines = lemma_last_line(whole);
    let line = command::last_line(whole);
    let (indent, rest) = text::trimming_takes_white_space_off_both_ends(line);
    let id = command::printed_image(stdout);
    lemma_blank_is_trimmed_away(stdout);
    lemma_blank_is_trimmed_away(line);
    let before = head + lines;
    let after = rest + tail;
    assert(stdout =~= before + indent + id + after);
    if lines.len() == 0 {
        assert(before =~= head);
    } else {
        assert(before.last() == lines.last());
    }
    assert forall|i: int| 0 <= i < after.len() implies text::is_space(#[trigger] after[i]) by {
        if i < rest.len() {
            assert(after[i] == rest[i]);
        } else {
            assert(after[i] == tail[i - rest.len()]);
        }
    }
    assert forall|i: int| 0 <= i < id.len() implies #[trigger] id[i] != '\n' by {
        assert(line[indent.len() + i] == id[i]);
    }
    if !text::blank(stdout) {
        assert(!text::is_space(whole.last()));
        if line.len() == 0 {
            assert(lines =~= whole);
            assert(text::is_space('\n'));
        } else {
            assert(line.last() == whole.last());
            assert(line[line.len() - 1] == line.last());
            assert(!text::blank(line));
        }
    } else {
        assert(whole.len() == 0);
        assert(line.len() == 0);
        assert(id.len() == 0);
    }
    (before, indent, after)
}

/// A sandbox has the variables of the provider, in order, and behind them those
/// of the run; it can download and fetch where the provider has a command for
/// it.
pub proof fn variables_of_the_run_come_last(
    config: DefaultProviderConfig,
    id: Seq<char>,
    env: Seq<(Seq<char>, Seq<char>)>,
)
    ensures
        ({
            let s = crate::provider::default::sandbox_made(config, id, env);
            let n = config.env@.len();
            &&& s.id == id
            &&& s.cpu_cores == config.cpu_cores@
            &&& s.env.len() == n + env.len()
            &&& forall|i: int|
                0 <= i < n ==> #[trigger] s.env[i] == (config.env@[i].0@, config.env@[i].1@)
            &&& forall|i: int| n <= i < n + env.len() ==> #[trigger] s.env[i] == env[i - n]
            &&& s.download_command is Some <==> config.download_command is Some
            &&& s.exec_and_fetch_command is Some <==> config.exec_and_fetch_command is Some
        }),
{
}

/// A Modal sandbox has the variables of the provider, in order, and behind them
/// those of the run; it can download and fetch.
pub proof fn variables_of_the_run_come_last_on_modal(
    config: ModalProviderConfig,
    id: Seq<char>,
    env: Seq<(Seq<char>, Seq<char>)>,
)
    ensures
        ({
            let s = modal::sandbox_made(config, id, env);
            let n = config.env@.len();
            &&& s.id == id
            &&& s.cpu_cores == config.cpu_cores@
            &&& s.env.len() == n + env.len()
            &&& forall|i: int|
                0 <= i < n ==> #[trigger] s.env[i] == (config.env@[i].0@, config.env@[i].1@)
            &&& forall|i: int| n <= i < n + env.len() ==> #[trigger] s.env[i] == env[i - n]
            &&& s.download_command is Some
            &&& s.exec_and_fetch_command is Some
        }),
{
}

/// Whether a template holds a placeholder at one place only, between the two
/// parts.
pub open spec fn holds_once(
    template: Seq<char>,
    head: Seq<char>,
    placeholder: Seq<char>,
    tail: Seq<char>,
) -> bool {
    &&& template == head + placeholder + tail
    &&& forall|i: int| #[trigger]
        text::occurs_at(template, placeholder, i) ==> i == head.len()
}

proof fn lemma_filled_once(
    template: Seq<char>,
    head: Seq<char>,
    placeholder: Seq<char>,
    tail: Seq<char>,
    to: Seq<char>,
)
    requires
        placeholder.len() > 0,
        holds_once(template, head, placeholder, tail),
    ensures
        text::replaced(template, placeholder, to) == head + to + tail,
{
    text::replacing_starts_at_the_first_match(head, tail, placeholder, to);
    assert forall|i: int| !#[trigger] text::occurs_at(tail, placeholder, i) by {
        if text::occurs_at(tail, placeholder, i) {
            let k = head.len() + placeholder.len() + i;
            assert(template.subrange(k, k + placeholder.len()) =~= tail.subrange(
                i,
                i + placeholder.len(),
            ));
            assert(text::occurs_at(template, placeholder, k));
        }
    }
    text::replacing_an_absent_pattern_changes_nothing(tail, placeholder, to);
}

/// Where a template has one place for the sandbox, the destroy command has its
/// id there.
pub proof fn a_sandbox_is_destroyed_by_its_id(s: SandboxView, head: Seq<char>, tail: Seq<char>)
    requires
        holds_once(s.destroy_command, head, "{sandbox_id}"@, tail),
    ensures
        crate::provider::default::destroy_line(s) == head + s.id + tail,
{
    reveal_strlit("{sandbox_id}");
    lemma_filled_once(s.destroy_command, head, "{sandbox_id}"@, tail, s.id);
}

/// Where a template has one place for the number of CPU cores, the number goes
/// there; where it has none, it stays as it is.
pub proof fn cores_go_to_their_place(
    template: Seq<char>,
    cores: Seq<char>,
    head: Seq<char>,
    tail: Seq<char>,
)
    ensures
        holds_once(template, head, "{cpu_cores}"@, tail) ==> crate::provider::default::with_cores(template, cores)
            == head + cores + tail,
        !text::contains(template, "{cpu_cores}"@) ==> crate::provider::default::with_cores(template, cores)
            == template,
{
    reveal_strlit("{cpu_cores}");
    if holds_once(template, head, "{cpu_cores}"@, tail) {
        lemma_filled_once(template, head, "{cpu_cores}"@, tail, cores);
    }
    if !text::contains(template, "{cpu_cores}"@) {
        text::replacing_an_absent_pattern_changes_nothing(template, "{cpu_cores}"@, cores);
    }
}

/// Where a create command has one place for the image, and no cores are to be
/// filled in, the id of the image goes there.
pub proof fn an_image_goes_to_its_place(
    template: Seq<char>,
    image_id: Seq<char>,
    cores: Seq<char>,
    head: Seq<char>,
    tail: Seq<char>,
)
    requires
        holds_once(template, head, "{image_id}"@, tail),
        !text::contains(head + image_id + tail, "{cpu_cores}"@),
    ensures
        crate::provider::default::create_line(template, Some(image_id), cores) == head + image_id + tail,
{
    reveal_strlit("{image_id}");
    reveal_strlit("{cpu_cores}");
    lemma_filled_once(template, head, "{image_id}"@, tail, image_id);
    text::replacing_an_absent_pattern_changes_nothing(
        head + image_id + tail,
        "{cpu_cores}"@,
        cores,
    );
}

/// Where a template has one place for paths and none for the sandbox, the
/// download command has the list of paths there; without a template there is
/// no such command.
pub proof fn paths_go_to_their_place(
    s: SandboxView,
    paths: Seq<(Seq<char>, Seq<char>)>,
    head: Seq<char>,
    tail: Seq<char>,
)
    ensures
        s.download_command is None <==> crate::provider::default::download_line(s, paths) is None,
        s.download_command matches Some(template) ==> holds_once(template, head, "{paths}"@, tail)
            && !text::contains(template, "{sandbox_id}"@) ==> crate::provider::default::download_line(s, paths)
            == Some(head + crate::provider::default::path_list(paths) + tail),
{
    reveal_strlit("{paths}");
    reveal_strlit("{sandbox_id}");
    if let Some(template) = s.download_command {
        if holds_once(template, head, "{paths}"@, tail) && !text::contains(
            template,
            "{sandbox_id}"@,
        ) {
            text::replacing_an_absent_pattern_changes_nothing(template, "{sandbox_id}"@, s.id);
            lemma_filled_once(template, head, "{paths}"@, tail, crate::provider::default::path_list(paths));
        }
    }
}

/// A list of paths reads back in a shell as one word for each pair: the remote
/// path, a colon and the local path, whatever characters they hold.
pub proof fn a_list_of_paths_reads_back(paths: Seq<(Seq<char>, Seq<char>)>)
    ensures
        shell::words_of(crate::provider::default::path_list(paths)) == Some(
            paths.map_values(|p: (Seq<char>, Seq<char>)| p.0 + seq![':'] + p.1),
        ),
    decreases paths.len(),
{
    let f = |p: (Seq<char>, Seq<char>)| shell::quoted(p.0) + ":"@ + shell::quoted(p.1);
    let g = |p: (Seq<char>, Seq<char>)| p.0 + seq![':'] + p.1;
    let parts = paths.map_values(f);
    if paths.len() == 0 {
        assert(paths.map_values(g) =~= seq![]);
    } else {
        let front = paths.drop_last();
        let p = paths.last();
        a_list_of_paths_reads_back(front);
        reveal_strlit(":");
        assert(":"@ =~= seq![':']);
        shell::a_quoted_word_goes_on(p.0, seq![':'] + shell::quoted(p.1));
        shell::plain_text_joins_the_word(seq![':'], shell::quoted(p.1), p.0);
        shell::a_quoted_word_reads_back(p.1, p.0 + seq![':']);
        assert(f(p) =~= shell::quoted(p.0) + (seq![':'] + shell::quoted(p.1)));
        assert(shell::words_of(f(p)) == Some(seq![g(p)]));
        assert(parts.drop_last() =~= front.map_values(f));
        assert(parts.last() == f(p));
        if paths.len() == 1 {
            assert(paths.map_values(g) =~= seq![g(p)]);
        } else {
            shell::a_space_separates_words(crate::provider::default::path_list(front), f(p));
            assert(front.map_values(g) + seq![g(p)] =~= paths.map_values(g));
        }
    }
}

/// Every directory to copy adds an option: those of the configuration first,
/// then those of the run with their remote path behind a colon.
pub proof fn every_directory_adds_an_option(
    configured: Seq<Seq<char>>,
    copy_dirs: Seq<(Seq<char>, Seq<char>)>,
    dir: Seq<char>,
    pair: (Seq<char>, Seq<char>),
)
    ensures
        command::copy_dir_options(seq![], seq![]).len() == 0,
        command::copy_dir_options(configured.push(dir), seq![]) == command::copy_dir_options(
            configured,
            seq![],
        ) + " --copy-dir="@ + dir,
        command::copy_dir_options(configured, copy_dirs.push(pair)) == command::copy_dir_options(
            configured,
            copy_dirs,
        ) + " --copy-dir="@ + pair.0 + ":"@ + pair.1,
{
    let f = |p: (Seq<char>, Seq<char>)| p.0 + ":"@ + p.1;
    let none = Seq::<(Seq<char>, Seq<char>)>::empty();
    assert(none.map_values(f) =~= Seq::<Seq<char>>::empty());
    assert(command::all_options(none.map_values(f)).len() == 0);
    assert(configured.push(dir).drop_last() =~= configured);
    assert(command::copy_dir_options(configured.push(dir), seq![]) =~= command::copy_dir_options(
        configured,
        seq![],
    ) + " --copy-dir="@ + dir);
    let more = copy_dirs.push(pair).map_values(f);
    assert(more.drop_last() =~= copy_dirs.map_values(f));
    assert(more.last() == f(pair));
    assert(command::copy_dir_options(configured, copy_dirs.push(pair))
        =~= command::copy_dir_options(configured, copy_dirs) + " --copy-dir="@ + pair.0 + ":"@
        + pair.1);
}

/// A prepare command is the configured one with an option for each thing asked
/// for: the cache unless it is not wanted, each directory to copy, the command
/// to run during the build, as one word, and the context.
pub proof fn a_prepare_command_grows_by_its_options(
    cmd: Seq<char>,
    dirs: Seq<Seq<char>>,
    copy_dirs: Seq<(Seq<char>, Seq<char>)>,
    no_cache: bool,
    init: Seq<char>,
    init_cmd: Option<Seq<char>>,
    context: Seq<char>,
)
    ensures
        crate::provider::default::prepare_line(None, dirs, copy_dirs, no_cache, init_cmd, Some(context)) is None,
        crate::provider::default::prepare_line(Some(cmd), seq![], seq![], true, None, None) == Some(cmd),
        crate::provider::default::prepare_line(Some(cmd), seq![], seq![], false, None, None) == Some(
            cmd + " --cached"@,
        ),
        crate::provider::default::prepare_line(Some(cmd), dirs, copy_dirs, no_cache, None, None) == Some(
            crate::provider::default::prepare_line(Some(cmd), seq![], seq![], no_cache, None, None)->0
                + command::copy_dir_options(dirs, copy_dirs),
        ),
        crate::provider::default::prepare_line(Some(cmd), dirs, copy_dirs, no_cache, Some(init), None) == Some(
            crate::provider::default::prepare_line(Some(cmd), dirs, copy_dirs, no_cache, None, None)->0
                + " --sandbox-init-cmd="@ + shell::quoted(init),
        ),
        crate::provider::default::prepare_line(Some(cmd), dirs, copy_dirs, no_cache, init_cmd, Some(context))
            == Some(
            crate::provider::default::prepare_line(Some(cmd), dirs, copy_dirs, no_cache, init_cmd, None)->0
                + " --context-dir="@ + context,
        ),
{
    every_directory_adds_an_option(dirs, copy_dirs, cmd, (cmd, cmd));
    let start = crate::provider::default::prepare_line(Some(cmd), seq![], seq![], no_cache, None, None)->0;
    let plain = crate::provider::default::prepare_line(Some(cmd), dirs, copy_dirs, no_cache, None, None)->0;
    assert(crate::provider::default::prepare_line(Some(cmd), seq![], seq![], true, None, None)->0 =~= cmd);
    assert(crate::provider::default::prepare_line(Some(cmd), seq![], seq![], false, None, None)->0 =~= cmd
        + " --cached"@);
    assert(plain =~= start + command::copy_dir_options(dirs, copy_dirs));
    assert(crate::provider::default::prepare_line(Some(cmd), dirs, copy_dirs, no_cache, Some(init), None)->0
        =~= plain + " --sandbox-init-cmd="@ + shell::quoted(init));
    assert(crate::provider::default::prepare_line(Some(cmd), dirs, copy_dirs, no_cache, init_cmd, Some(context))->0
        =~= crate::provider::default::prepare_line(Some(cmd), dirs, copy_dirs, no_cache, init_cmd, None)->0
        + " --context-dir="@ + context);
}

/// The directory of a local sandbox is the first that is known of its own, that
/// of the provider and the current one.
pub proof fn the_first_known_directory_is_chosen(
    own: Option<Seq<char>>,
    configured: Option<Seq<char>>,
    current: Option<Seq<char>>,
)
    ensures
        own is Some ==> local::chosen_dir(own, configured, current) == own->0,
        own is None && configured is Some ==> local::chosen_dir(own, configured, current)
            == configured->0,
        own is None && configured is None && current is Some ==> local::chosen_dir(
            own,
            configured,
            current,
        ) == current->0,
        own is None && configured is None && current is None ==> local::chosen_dir(
            own,
            configured,
            current,
        ) == "."@,
{
}

/// The memory of a Modal sandbox is asked for behind everything else, where it
/// is configured, and options come behind it as one word.
pub proof fn memory_and_options_come_last(
    config: ModalProviderConfig,
    image_id: Seq<char>,
    gb: String,
    json: Seq<char>,
)
    ensures
        modal::create_line(ModalProviderConfig { memory_gb: None, ..config }, image_id)
            == "uv run @modal_sandbox.py create --cpu "@ + config.cpu_cores@ + " "@ + image_id,
        modal::create_line(ModalProviderConfig { memory_gb: Some(gb), ..config }, image_id)
            == modal::create_line(ModalProviderConfig { memory_gb: None, ..config }, image_id)
            + " --memory-gb "@ + gb@,
        config.experimental_options@.len() == 0 ==> modal::whole_create_line(config, image_id)
            == modal::create_line(config, image_id),
        config.experimental_options@.len() > 0 ==> modal::whole_create_line(config, image_id)
            == modal::create_line(config, image_id) + " --experimental-options "@ + shell::quoted(
            modal::options_json(modal::option_views(config.experimental_options@)),
        ),
{
    let plain = modal::create_line(ModalProviderConfig { memory_gb: None, ..config }, image_id);
    assert(plain =~= "uv run @modal_sandbox.py create --cpu "@ + config.cpu_cores@ + " "@
        + image_id);
    assert(modal::create_line(ModalProviderConfig { memory_gb: Some(gb), ..config }, image_id)
        =~= plain + " --memory-gb "@ + gb@);
}

/// A Modal prepare command names the Dockerfile, the current directory, the
/// cache and the command to run during the build each where asked for.
pub proof fn a_modal_prepare_command_grows_by_its_options(
    config: ModalProviderConfig,
    copy_dirs: Seq<(Seq<char>, Seq<char>)>,
    no_cache: bool,
    init: Seq<char>,
)
    ensures
        ({
            let start = "uv run @modal_sandbox.py prepare"@ + match config.dockerfile {
                Some(file) => " "@ + file@,
                None => seq![],
            };
            let dirs = command::copy_dir_options(text::views(config.copy_dirs@), copy_dirs);
            &&& config.include_cwd && no_cache ==> modal::prepare_line(
                config,
                copy_dirs,
                no_cache,
                None,
            ) == start + " --include-cwd"@ + dirs
            &&& !config.include_cwd && no_cache ==> modal::prepare_line(
                config,
                copy_dirs,
                no_cache,
                None,
            ) == start + dirs
            &&& config.include_cwd && !no_cache ==> modal::prepare_line(
                config,
                copy_dirs,
                no_cache,
                None,
            ) == start + " --include-cwd"@ + " --cached"@ + dirs
            &&& !config.include_cwd && !no_cache ==> modal::prepare_line(
                config,
                copy_dirs,
                no_cache,
                None,
            ) == start + " --cached"@ + dirs
            &&& modal::prepare_line(config, copy_dirs, no_cache, Some(init))
                == modal::prepare_line(config, copy_dirs, no_cache, None)
                + " --sandbox-init-cmd="@ + shell::quoted(init)
        }),
{
    let start = "uv run @modal_sandbox.py prepare"@ + match config.dockerfile {
        Some(file) => " "@ + file@,
        None => seq![],
    };
    let dirs = command::copy_dir_options(text::views(config.copy_dirs@), copy_dirs);
    let line = modal::prepare_line(config, copy_dirs, no_cache, None);
    assert(line =~= start + if config.include_cwd {
        " --include-cwd"@
    } else {
        seq![]
    } + if no_cache {
        seq![]
    } else {
        " --cached"@
    } + dirs);
    assert(start + Seq::<char>::empty() =~= start);
    assert(start + " --include-cwd"@ + Seq::<char>::empty() =~= start + " --include-cwd"@);
    assert(modal::prepare_line(config, copy_dirs, no_cache, Some(init)) =~= line
        + " --sandbox-init-cmd="@ + shell::quoted(init));
}

} // verus!
