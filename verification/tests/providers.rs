use offload::config::schema::{
    DefaultProviderConfig, LocalProviderConfig, ModalProviderConfig, SandboxConfig,
};
use offload::provider::command::{image_id, prepared_id, Command, ExecResult, ProviderError};
use offload::provider::default::{DefaultProvider, DefaultSandbox};
use offload::provider::local::{LocalProvider, LocalSandbox};
use offload::provider::modal::{ModalProvider, OptionsText};

fn pairs(p: &[(&str, &str)]) -> Vec<(String, String)> {
    p.iter().map(|(a, b)| (a.to_string(), b.to_string())).collect()
}

/// Creates a DefaultSandbox with given env vars for testing.
fn sandbox_with_env(env: Vec<(String, String)>) -> DefaultSandbox {
    DefaultSandbox {
        id: "sb-test-123".to_string(),
        exec_command: "exec --sandbox {sandbox_id} --cmd {command}".to_string(),
        destroy_command: "destroy {sandbox_id}".to_string(),
        download_command: None,
        exec_and_fetch_command: None,
        env,
        cpu_cores: "1".to_string(),
    }
}

/// Creates a Command with the given program and args.
fn cmd(program: &str, args: &[&str]) -> Command {
    Command {
        program: program.to_string(),
        args: args.iter().map(|s| s.to_string()).collect(),
        working_dir: None,
        env: Vec::new(),
        timeout_secs: None,
    }
}

#[test]
fn test_build_exec_command_no_env_vars() {
    let sandbox = sandbox_with_env(vec![]);
    let command = cmd("pytest", &["test_foo.py", "-v"]);

    let result = sandbox.build_exec_command(&command);

    assert!(result.contains("sb-test-123"), "sandbox_id should be substituted: {result}");
    assert!(
        !result.contains("{sandbox_id}"),
        "sandbox_id placeholder should be replaced: {result}"
    );
    assert!(result.contains("pytest"), "command should contain program: {result}");
    assert!(result.contains("test_foo.py"), "command should contain first arg: {result}");
    assert!(result.contains("-v"), "command should contain second arg: {result}");
}

#[test]
fn test_build_exec_command_single_env_var() {
    let sandbox = sandbox_with_env(pairs(&[("FOO", "bar")]));
    let command = cmd("echo", &["hello"]);

    let result = sandbox.build_exec_command(&command);

    assert!(result.contains("FOO=bar"), "result should contain env var prefix: {result}");
    assert!(
        !result.contains("cd "),
        "result should not contain cd without OFFLOAD_ROOT: {result}"
    );
    assert!(result.contains("echo"), "result should contain program");
}

#[test]
fn test_build_exec_command_multiple_env_vars() {
    let sandbox = sandbox_with_env(pairs(&[("FOO", "bar"), ("BAZ", "qux")]));
    let command = cmd("myprogram", &[]);

    let result = sandbox.build_exec_command(&command);

    assert!(result.contains("FOO=bar"), "result should contain first env var prefix: {result}");
    assert!(result.contains("BAZ=qux"), "result should contain second env var prefix: {result}");
    assert!(
        !result.contains("cd "),
        "result should not contain cd without OFFLOAD_ROOT: {result}"
    );
}

#[test]
fn test_build_exec_command_env_var_with_spaces() {
    let sandbox = sandbox_with_env(pairs(&[("MESSAGE", "hello world")]));
    let command = cmd("echo", &[]);

    let result = sandbox.build_exec_command(&command);

    assert!(result.contains("MESSAGE="), "env var name should be present: {result}");
    assert!(
        result.contains("hello world"),
        "env var value should be present (possibly escaped): {result}"
    );
    assert!(
        !result.contains("cd "),
        "result should not contain cd without OFFLOAD_ROOT: {result}"
    );
}

#[test]
fn test_build_exec_command_env_var_with_quotes() {
    let sandbox = sandbox_with_env(pairs(&[("QUOTED", "it's \"quoted\"")]));
    let command = cmd("echo", &[]);

    let result = sandbox.build_exec_command(&command);

    assert!(result.contains("QUOTED="), "result should contain env var name: {result}");
    assert!(
        !result.contains("QUOTED=it's"),
        "value with quotes should not appear unescaped: {result}"
    );
}

#[test]
fn test_build_exec_command_env_var_empty_value() {
    let sandbox = sandbox_with_env(pairs(&[("EMPTY", "")]));
    let command = cmd("echo", &[]);

    let result = sandbox.build_exec_command(&command);

    assert!(result.contains("EMPTY="), "env var name should be present: {result}");
    assert!(
        !result.contains("{command}"),
        "command placeholder should be replaced: {result}"
    );
    assert!(
        result.contains("EMPTY='\\''"),
        "empty value should be escaped in the final command: {result}"
    );
}

#[test]
fn test_build_exec_command_sandbox_id_substitution() {
    let sandbox = sandbox_with_env(vec![]);
    let command = cmd("test", &[]);

    let result = sandbox.build_exec_command(&command);

    assert!(result.contains("sb-test-123"), "sandbox_id should be substituted: {result}");
    assert!(!result.contains("{sandbox_id}"), "placeholder should be replaced: {result}");
}

#[test]
fn test_build_exec_command_command_substitution() {
    let sandbox = sandbox_with_env(vec![]);
    let command = cmd("pytest", &["--verbose"]);

    let result = sandbox.build_exec_command(&command);

    assert!(
        !result.contains("{command}"),
        "command placeholder should be replaced: {result}"
    );
    assert!(result.contains("pytest"), "program should be in result: {result}");
}

#[test]
fn test_build_exec_command_args_with_special_chars() {
    let sandbox = sandbox_with_env(vec![]);
    let command = cmd("echo", &["hello world", "foo'bar"]);

    let result = sandbox.build_exec_command(&command);

    assert!(
        result.contains("'hello world'"),
        "arg with space should be quoted: {result}"
    );
}

#[test]
fn test_build_exec_command_offload_root_cd() {
    let sandbox = sandbox_with_env(pairs(&[("OFFLOAD_ROOT", "/code/mng"), ("FOO", "bar")]));
    let command = cmd("pytest", &["-v"]);

    let result = sandbox.build_exec_command(&command);

    assert!(
        result.contains("cd /code/mng"),
        "result should contain cd with literal OFFLOAD_ROOT path: {result}"
    );
    assert!(
        result.contains("OFFLOAD_ROOT="),
        "result should contain OFFLOAD_ROOT env var: {result}"
    );
    assert!(result.contains("FOO=bar"), "result should contain FOO env var prefix: {result}");
    assert!(result.contains("pytest"), "result should contain program: {result}");
    // cd should come before the env prefix
    let cd_pos = result.find("cd /code/mng");
    let env_pos = result.find("OFFLOAD_ROOT=");
    assert!(cd_pos < env_pos, "cd should appear before env prefix: {result}");
}

#[test]
fn test_build_exec_and_fetch_command_none_when_unset() {
    let sandbox = sandbox_with_env(vec![]);
    let command = cmd("pytest", &["-v"]);
    let result =
        sandbox.build_exec_and_fetch_command(&command, "/tmp/junit.xml", "/local/junit.xml");
    assert!(result.is_none(), "exec_and_fetch should be None when template unset");
}

#[test]
fn test_build_exec_and_fetch_command_substitutes_placeholders() {
    let mut sandbox = sandbox_with_env(vec![]);
    sandbox.exec_and_fetch_command = Some(
        "python modal_sandbox.py exec-and-fetch {sandbox_id} {command} --fetch {fetch}".to_string(),
    );
    let command = cmd("pytest", &["tests/foo.py::test_bar"]);
    let result = sandbox
        .build_exec_and_fetch_command(&command, "/tmp/result.xml", "/tmp/local-result.xml")
        .expect("template is set");

    assert!(result.contains("sb-test-123"), "sandbox id: {result}");
    assert!(result.contains("exec-and-fetch"), "subcommand: {result}");
    assert!(result.contains("pytest"), "program: {result}");
    assert!(result.contains("tests/foo.py::test_bar"), "test id: {result}");
    assert!(result.contains("--fetch"), "fetch flag: {result}");
    assert!(
        result.contains("/tmp/result.xml:/tmp/local-result.xml"),
        "fetch pair: {result}"
    );
}

#[test]
fn commands_are_quoted_exactly() {
    let sandbox = sandbox_with_env(pairs(&[("A", "x y"), ("OFFLOAD_ROOT", "/my code")]));
    let inner = sandbox.build_inner_shell_command(&cmd("echo", &["it's", "a=b", "", "plain"]));
    assert_eq!(
        inner,
        "cd '/my code' && A='x y' OFFLOAD_ROOT='/my code' echo 'it'\\''s' 'a=b' '' plain"
    );
    assert_eq!(
        sandbox_with_env(vec![]).build_exec_command(&cmd("ls", &["-l"])),
        "exec --sandbox sb-test-123 --cmd 'ls -l'"
    );
    assert_eq!(cmd("a", &["b c"]).to_shell_string(), "a 'b c'");
}

#[test]
fn quoted_lines_split_into_their_words() {
    let words = ["a b", "it's", "\"x\"", "\\", "$HOME", "", "new\nline", "plain", "*?[#~=%"];
    let line = cmd("p|q", &words).to_shell_string();
    let mut expected = vec!["p|q".to_string()];
    expected.extend(words.iter().map(|w| w.to_string()));
    assert_eq!(shell_words::split(&line).unwrap(), expected);
}

#[test]
fn sandboxes_are_destroyed_by_id() {
    assert_eq!(sandbox_with_env(vec![]).build_destroy_command(), "destroy sb-test-123");
    assert_eq!(sandbox_with_env(vec![]).id(), "sb-test-123");
}

#[test]
fn downloads_list_their_paths() {
    let mut sandbox = sandbox_with_env(vec![]);
    let paths = pairs(&[("/a b", "/c"), ("/d", "/e")]);
    assert_eq!(sandbox.download(&paths), None);
    sandbox.download_command = Some("get {sandbox_id} {paths}".to_string());
    assert_eq!(
        sandbox.download(&paths),
        Some("get sb-test-123 '/a b':/c /d:/e".to_string())
    );
    assert_eq!(sandbox.download(&vec![]), None);
    assert_eq!(
        sandbox.build_download_command(&vec![]),
        Some("get sb-test-123 ".to_string())
    );
}

fn result(exit_code: i32, stdout: &str, stderr: &str) -> ExecResult {
    ExecResult { exit_code, stdout: stdout.to_string(), stderr: stderr.to_string() }
}

#[test]
fn failed_downloads_are_errors() {
    assert_eq!(DefaultSandbox::downloaded(&result(0, "", "warning")), Ok(()));
    assert_eq!(
        DefaultSandbox::downloaded(&result(2, "", "no such file")),
        Err(ProviderError::DownloadFailed("Download command failed: no such file".to_string()))
    );
}

fn default_config() -> DefaultProviderConfig {
    DefaultProviderConfig {
        prepare_command: Some("prep".to_string()),
        create_command: "create {image_id} {cpu_cores}".to_string(),
        exec_command: "exec {cpu_cores} {sandbox_id} {command}".to_string(),
        destroy_command: "destroy {sandbox_id}".to_string(),
        download_command: Some("get {cpu_cores} {paths}".to_string()),
        exec_and_fetch_command: None,
        working_dir: None,
        timeout_secs: 300,
        copy_dirs: vec!["./src:/app/src".to_string()],
        env: pairs(&[("BASE", "1")]),
        cpu_cores: "0.5".to_string(),
    }
}

fn sandbox_config() -> SandboxConfig {
    SandboxConfig {
        id: "test".to_string(),
        working_dir: None,
        env: pairs(&[("RUN", "2")]),
        copy_dirs: vec![],
    }
}

#[test]
fn default_prepare_command_takes_all_options() {
    let p = DefaultProvider::from_config(default_config());
    let dirs = pairs(&[("./tests", "/app/tests")]);
    assert_eq!(
        p.build_prepare_command(&dirs, false, Some("make setup"), Some("/ctx")),
        Some(
            "prep --cached --copy-dir=./src:/app/src --copy-dir=./tests:/app/tests \
             --sandbox-init-cmd='make setup' --context-dir=/ctx"
                .to_string()
        )
    );
    assert_eq!(
        p.build_prepare_command(&vec![], true, None, None),
        Some("prep --copy-dir=./src:/app/src".to_string())
    );
    let mut config = default_config();
    config.prepare_command = None;
    let p = DefaultProvider::from_config(config);
    assert_eq!(p.build_prepare_command(&dirs, false, None, None), None);
}

#[test]
fn default_create_command_fills_in_the_image() {
    let mut p = DefaultProvider::from_config(default_config());
    assert_eq!(p.build_create_command(), "create {image_id} 0.5");
    p.prepared(Some("im-1".to_string()));
    assert_eq!(p.build_create_command(), "create im-1 0.5");
}

#[test]
fn default_sandboxes_take_the_printed_id() {
    let p = DefaultProvider::from_config(default_config());
    let s = p.create_sandbox(&sandbox_config(), &result(0, " sb-9 \n", "")).unwrap();
    assert_eq!(s.id, "sb-9");
    assert_eq!(s.exec_command, "exec 0.5 {sandbox_id} {command}");
    assert_eq!(s.destroy_command, "destroy {sandbox_id}");
    assert_eq!(s.download_command, Some("get 0.5 {paths}".to_string()));
    assert_eq!(s.exec_and_fetch_command, None);
    assert_eq!(s.env, pairs(&[("BASE", "1"), ("RUN", "2")]));
    assert_eq!(s.cpu_cores, "0.5");
    assert_eq!(
        p.create_sandbox(&sandbox_config(), &result(1, "sb-9", "boom")).err(),
        Some(ProviderError::ExecFailed("Create command failed: boom".to_string()))
    );
    assert_eq!(
        p.create_sandbox(&sandbox_config(), &result(0, " \n", "")).err(),
        Some(ProviderError::ExecFailed(
            "Create command returned empty sandbox_id".to_string()
        ))
    );
}

fn provider(config: ModalProviderConfig) -> ModalProvider {
    ModalProvider::from_config(config)
}

#[test]
fn test_prepare_command_defaults() {
    let p = provider(ModalProviderConfig::default());
    let cmd = p.build_prepare_command(&vec![], false, None);
    assert_eq!(cmd, "uv run @modal_sandbox.py prepare --cached");
}

#[test]
fn test_prepare_command_no_cache() {
    let p = provider(ModalProviderConfig::default());
    let cmd = p.build_prepare_command(&vec![], true, None);
    assert_eq!(cmd, "uv run @modal_sandbox.py prepare");
}

#[test]
fn test_prepare_command_with_dockerfile_and_include_cwd() {
    let p = provider(ModalProviderConfig {
        dockerfile: Some("./Dockerfile".to_string()),
        include_cwd: true,
        ..Default::default()
    });
    let cmd = p.build_prepare_command(&vec![], false, None);
    assert_eq!(cmd, "uv run @modal_sandbox.py prepare ./Dockerfile --include-cwd --cached");
}

#[test]
fn test_prepare_command_with_copy_dirs() {
    let p = provider(ModalProviderConfig {
        copy_dirs: vec!["./src:/app/src".to_string()],
        ..Default::default()
    });
    let runtime_dirs = pairs(&[("./tests", "/app/tests")]);
    let cmd = p.build_prepare_command(&runtime_dirs, true, None);
    assert_eq!(
        cmd,
        "uv run @modal_sandbox.py prepare \
         --copy-dir=./src:/app/src \
         --copy-dir=./tests:/app/tests"
    );
}

#[test]
fn test_prepare_command_with_sandbox_init_cmd() {
    let p = provider(ModalProviderConfig::default());
    let cmd = p.build_prepare_command(
        &vec![],
        false,
        Some("apt-get update && apt-get install -y curl"),
    );
    assert_eq!(
        cmd,
        "uv run @modal_sandbox.py prepare --cached \
         --sandbox-init-cmd='apt-get update && apt-get install -y curl'"
    );
}

#[test]
fn test_prepare_command_all_options() {
    let p = provider(ModalProviderConfig {
        dockerfile: Some("./Dockerfile.test".to_string()),
        include_cwd: true,
        copy_dirs: vec!["./src:/app/src".to_string()],
        ..Default::default()
    });
    let runtime_dirs = pairs(&[("./tests", "/app/tests")]);
    let cmd = p.build_prepare_command(&runtime_dirs, true, Some("make setup"));
    assert_eq!(
        cmd,
        "uv run @modal_sandbox.py prepare ./Dockerfile.test --include-cwd \
         --copy-dir=./src:/app/src \
         --copy-dir=./tests:/app/tests \
         --sandbox-init-cmd='make setup'"
    );
}

#[test]
fn modal_prepare_command_names_the_context() {
    let p = provider(ModalProviderConfig::default());
    assert_eq!(
        p.prepare_command(&vec![], true, None, Some("/ctx")),
        "uv run @modal_sandbox.py prepare --context-dir=/ctx"
    );
}

#[test]
fn test_create_command_without_experimental_options() {
    let p = provider(ModalProviderConfig { cpu_cores: "0.125".to_string(), ..Default::default() });
    let cmd = p.build_create_command("im-abc123").unwrap();
    assert_eq!(cmd, "uv run @modal_sandbox.py create --cpu 0.125 im-abc123");
    assert!(!cmd.contains("--experimental-options"));
}

#[test]
fn test_create_command_custom_cpu() {
    let p = provider(ModalProviderConfig { cpu_cores: format!("{}", 2.0), ..Default::default() });
    let cmd = p.build_create_command("im-xyz").unwrap();
    assert_eq!(cmd, "uv run @modal_sandbox.py create --cpu 2 im-xyz");
}

#[test]
fn test_create_command_with_experimental_options() {
    let experimental_options =
        vec![("enable_docker".to_string(), serde_json::Value::Bool(true))];

    let p = provider(ModalProviderConfig {
        experimental_options,
        cpu_cores: "0.125".to_string(),
        ..Default::default()
    });
    let cmd = p.build_create_command("im-abc123").unwrap();
    assert!(cmd.starts_with("uv run @modal_sandbox.py create --cpu 0.125 im-abc123"));
    assert!(cmd.contains("--experimental-options"));
    assert!(cmd.contains("enable_docker"));
    assert!(cmd.contains("true"));
    assert_eq!(
        cmd,
        "uv run @modal_sandbox.py create --cpu 0.125 im-abc123 \
         --experimental-options '{\"enable_docker\":true}'"
    );
}

#[test]
fn modal_options_that_cannot_be_written_are_errors() {
    let p = provider(ModalProviderConfig::default());
    assert_eq!(
        p.create_command_with("im-1", OptionsText::Failed("why".to_string())),
        Err(ProviderError::ExecFailed(
            "Failed to serialize experimental_options: why".to_string()
        ))
    );
    assert_eq!(
        p.create_command_with("im-1", OptionsText::Json("{}".to_string())),
        Ok("uv run @modal_sandbox.py create --cpu 0.125 im-1 --experimental-options {}".to_string())
    );
}

#[test]
fn modal_memory_is_passed_on() {
    let p = provider(ModalProviderConfig {
        memory_gb: Some("1.5".to_string()),
        ..Default::default()
    });
    assert_eq!(
        p.build_create_command("im-1").unwrap(),
        "uv run @modal_sandbox.py create --cpu 0.125 im-1 --memory-gb 1.5"
    );
}

#[test]
fn modal_sandboxes_need_an_image() {
    let mut p = provider(ModalProviderConfig::default());
    assert_eq!(
        p.create_command(),
        Err(ProviderError::ExecFailed(
            "Modal image ID not set; call prepare() before create_sandbox()".to_string()
        ))
    );
    p.prepared("im-7".to_string());
    assert_eq!(
        p.create_command(),
        Ok("uv run @modal_sandbox.py create --cpu 0.125 im-7".to_string())
    );
}

#[test]
fn modal_sandboxes_take_the_printed_id() {
    let p = provider(ModalProviderConfig {
        env: pairs(&[("BASE", "1")]),
        ..Default::default()
    });
    let s = p.create_sandbox(&sandbox_config(), &result(0, "sb-1\n", "")).unwrap();
    assert_eq!(s.env, pairs(&[("BASE", "1"), ("RUN", "2")]));
    assert_eq!(
        s.build_exec_command(&cmd("ls", &[])),
        "uv run @modal_sandbox.py exec sb-1 'BASE=1 RUN=2 ls'"
    );
    assert_eq!(s.build_destroy_command(), "uv run @modal_sandbox.py destroy sb-1");
    assert_eq!(
        s.build_download_command(&pairs(&[("a", "b")])),
        Some("uv run @modal_sandbox.py download sb-1 a:b".to_string())
    );
    assert_eq!(
        s.build_exec_and_fetch_command(&cmd("ls", &[]), "r", "l"),
        Some(
            "uv run @modal_sandbox.py exec-and-fetch sb-1 'BASE=1 RUN=2 ls' --fetch r:l"
                .to_string()
        )
    );
    assert_eq!(
        p.create_sandbox(&sandbox_config(), &result(3, "", "quota")).err(),
        Some(ProviderError::ExecFailed("Modal create command failed: quota".to_string()))
    );
    assert_eq!(
        p.create_sandbox(&sandbox_config(), &result(0, "", "")).err(),
        Some(ProviderError::ExecFailed(
            "Modal create command returned empty sandbox_id".to_string()
        ))
    );
}

#[test]
fn local_sandbox_cost_estimate_is_zero() {
    let sandbox = LocalSandbox {
        id: "local-1".to_string(),
        working_dir: ".".to_string(),
        env: vec![],
        shell: "/bin/sh".to_string(),
    };

    let cost = sandbox.cost_estimate();
    assert_eq!(cost.cpu_micros as f64 / 1e6, 0.0);
    assert_eq!(cost.estimated_micro_usd as f64 / 1e6, 0.0);
}

#[test]
fn local_sandboxes_choose_their_directory() {
    let mut config = LocalProviderConfig::default();
    let p = LocalProvider::new(config.clone());
    let mut own = sandbox_config();
    assert_eq!(p.create_sandbox(&own, None).unwrap().working_dir, ".");
    assert_eq!(p.create_sandbox(&own, Some("/here")).unwrap().working_dir, "/here");
    config.working_dir = Some("/work".to_string());
    config.env = pairs(&[("BASE", "1")]);
    let p = LocalProvider::new(config);
    assert_eq!(p.create_sandbox(&own, Some("/here")).unwrap().working_dir, "/work");
    own.working_dir = Some("/own".to_string());
    let s = p.create_sandbox(&own, Some("/here")).unwrap();
    assert_eq!(s.working_dir, "/own");
    assert_eq!(s.env, pairs(&[("RUN", "2")]));
    assert_eq!(s.shell, "/bin/sh");
    assert_eq!(p.base_env(), pairs(&[("BASE", "1")]));
    assert_eq!(p.prepare(), Ok(None));
}

#[test]
fn local_commands_run_in_the_shell() {
    let s = LocalSandbox {
        id: "local-1".to_string(),
        working_dir: "/work".to_string(),
        env: pairs(&[("A", "1")]),
        shell: "/bin/bash".to_string(),
    };
    let mut command = cmd("echo", &["hello world"]);
    command.env = pairs(&[("B", "2")]);
    let plan = s.exec_stream(&command);
    assert_eq!(plan.program, "/bin/bash");
    assert_eq!(plan.args, vec!["-c".to_string(), "echo 'hello world'".to_string()]);
    assert_eq!(plan.current_dir, "/work");
    assert_eq!(plan.env, pairs(&[("A", "1"), ("B", "2")]));
    command.working_dir = Some("/tmp".to_string());
    assert_eq!(s.exec_stream(&command).current_dir, "/tmp");
    assert_eq!(s.id(), "local-1");
}

#[test]
fn an_image_id_is_the_last_line_of_output() {
    assert_eq!(image_id("im-1"), Some("im-1".to_string()));
    assert_eq!(image_id("building\nlayer 2\n im-2 \n\n"), Some("im-2".to_string()));
    assert_eq!(image_id(""), None);
    assert_eq!(image_id(" \n\t\n"), None);
}

#[test]
fn a_command_reaches_the_template_as_one_word() {
    let sandbox = sandbox_with_env(pairs(&[("OFFLOAD_ROOT", "/my app"), ("NAME", "it's")]));
    let command = cmd("pytest", &["a b", "$HOME"]);
    let line = sandbox.build_exec_command(&command);
    let words = shell_words::split(&line).expect("the line is well formed");
    assert_eq!(words[..4], ["exec", "--sandbox", "sb-test-123", "--cmd"]);
    assert_eq!(words.len(), 5);
    assert_eq!(words[4], sandbox.build_inner_shell_command(&command));
    let inner = shell_words::split(&words[4]).expect("the inner line is well formed");
    assert_eq!(
        inner,
        ["cd", "/my app", "&&", "OFFLOAD_ROOT=/my app", "NAME=it's", "pytest", "a b", "$HOME"]
    );
}

fn create_line_with(options: Vec<(&str, toml::Value)>) -> String {
    let p = ModalProvider::from_config(ModalProviderConfig {
        experimental_options: options
            .into_iter()
            .map(|(k, v)| (k.to_string(), serde_json::to_value(v).expect("a JSON value")))
            .collect(),
        ..Default::default()
    });
    p.build_create_command("im-1").expect("options can always be written")
}

#[test]
fn every_kind_of_option_is_written() {
    let head = "uv run @modal_sandbox.py create --cpu 0.125 im-1 --experimental-options ";
    let day: toml::value::Datetime = "1979-05-27".parse().expect("a date");
    let table: toml::Table = [("b".to_string(), toml::Value::Integer(2))].into_iter().collect();
    let cases = vec![
        (toml::Value::String("it's".to_string()), "\"it'\\''s\""),
        (toml::Value::Integer(-3), "-3"),
        (toml::Value::Float(1.5), "1.5"),
        (toml::Value::Float(f64::NAN), "null"),
        (toml::Value::Array(vec![toml::Value::Boolean(false)]), "[false]"),
        (toml::Value::Table(table), "{\"b\":2}"),
        (toml::Value::Datetime(day), "{\"$__toml_private_datetime\":\"1979-05-27\"}"),
    ];
    for (value, written) in cases {
        assert_eq!(
            create_line_with(vec![("a", value)]),
            format!("{}'{{\"a\":{}}}'", head, written)
        );
    }
    assert_eq!(
        create_line_with(vec![("a\"b", toml::Value::Boolean(true))]),
        format!("{}'{{\"a\\\"b\":true}}'", head)
    );
}

#[test]
fn options_come_as_members_of_one_object() {
    let line = create_line_with(vec![
        ("one", toml::Value::Integer(1)),
        ("two", toml::Value::Boolean(true)),
    ]);
    let words = shell_words::split(&line).expect("the line is well formed");
    let json = words.last().expect("there are words").as_str();
    assert_eq!(json, "{\"one\":1,\"two\":true}");
}

#[test]
fn names_of_options_are_escaped() {
    let line = create_line_with(vec![("a\\b\n\u{1f}\u{8}\u{e9}", toml::Value::Integer(0))]);
    let words = shell_words::split(&line).expect("the line is well formed");
    assert_eq!(words.last().map(|w| w.as_str()), Some("{\"a\\\\b\\n\\u001f\\b\u{e9}\":0}"));
}

#[test]
fn a_prepare_command_must_end_well_and_print_an_id() {
    let result = |exit_code: i32, stdout: &str| ExecResult {
        exit_code,
        stdout: stdout.to_string(),
        stderr: "why".to_string(),
    };
    assert_eq!(prepared_id("Modal", &result(0, "building\nim-1\n")), Ok("im-1".to_string()));
    assert_eq!(
        prepared_id("Modal", &result(2, "im-1")),
        Err(ProviderError::ExecFailed("Modal prepare command failed: why".to_string()))
    );
    assert_eq!(
        prepared_id("Modal", &result(0, " \n")),
        Err(ProviderError::ExecFailed(
            "Modal prepare command returned empty image_id".to_string()
        ))
    );
}
