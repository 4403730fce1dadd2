use tapir_code::cli::{Cli, Effort, ThinkingLevel};
use tapir_code::run::{
    piped_input, require_prompt, resolve_credential, step, tool_detail, RunAction, RunConfig, RunError, RunEvent,
};

fn cli(quiet: bool, max: usize) -> Cli {
    Cli {
        model: "scripted".into(),
        effort: Effort::Off,
        system_prompt: None,
        append_system_prompt: Vec::new(),
        api_key: None,
        no_tools: false,
        quiet,
        max_tool_iterations: max,
        prompt: vec!["hi".into()],
    }
}

#[test]
fn efforts_map_to_thinking_levels() {
    assert_eq!(Effort::Off.to_thinking(), None);
    assert_eq!(Effort::Minimal.to_thinking(), Some(ThinkingLevel::Minimal));
    assert_eq!(Effort::Xhigh.to_thinking(), Some(ThinkingLevel::XHigh));
    assert_eq!(Effort::Max.to_thinking(), Some(ThinkingLevel::Max));
}

#[test]
fn blank_piped_input_is_ignored() {
    assert_eq!(piped_input(" \n\t".to_string()), None);
    assert_eq!(piped_input("data\n".to_string()), Some("data\n".to_string()));
}

#[test]
fn a_blank_prompt_is_refused() {
    assert_eq!(require_prompt("  \n"), Err(RunError::NoPrompt));
    assert_eq!(RunError::NoPrompt.message(), "no prompt provided");
    assert_eq!(require_prompt("go"), Ok(()));
}

#[test]
fn an_explicit_key_overrides_the_catalog() {
    let k = resolve_credential("haiku-4-5", "anthropic", Some("env".into()), Some("sk-test"), None);
    assert_eq!(k, Ok("sk-test".to_string()));
    let k = resolve_credential("gpt-5", "openai", Some("env".into()), None, None);
    assert_eq!(k, Ok("env".to_string()));
}

#[test]
fn a_missing_key_names_the_variable_to_set() {
    let err = resolve_credential("gpt-5", "openai", None, None, Some("OPENAI_API_KEY")).unwrap_err();
    assert_eq!(
        err.message(),
        "no credential for model gpt-5 (provider openai); pass --api-key or set OPENAI_API_KEY"
    );
    let err = resolve_credential("m", "p", None, None, None).unwrap_err();
    assert!(err.message().ends_with("set its API-key environment variable"));
    assert_eq!(
        RunError::UnknownModel("no-such-model-xyz".into()).message(),
        "unknown model id `no-such-model-xyz`"
    );
}

#[test]
fn text_goes_to_stdout_and_tool_activity_to_stderr() {
    let cfg = RunConfig::from_cli(&cli(false, 25));
    match step(&cfg, 0, RunEvent::TextDelta("all done".into())) {
        (0, RunAction::Stdout(s)) => assert_eq!(s, "all done"),
        other => panic!("unexpected {other:?}"),
    }
    match step(&cfg, 0, RunEvent::ToolCall { name: "bash".into(), detail: "echo hi".into() }) {
        (0, RunAction::Stderr(s)) => assert_eq!(s, "bash(echo hi)\n"),
        other => panic!("unexpected {other:?}"),
    }
    match step(&cfg, 0, RunEvent::Done) {
        (0, RunAction::Stdout(s)) => assert_eq!(s, "\n"),
        other => panic!("unexpected {other:?}"),
    }
}

#[test]
fn quiet_suppresses_tool_lines() {
    let cfg = RunConfig::from_cli(&cli(true, 25));
    assert!(matches!(
        step(&cfg, 0, RunEvent::ToolCall { name: "bash".into(), detail: "echo hi".into() }),
        (0, RunAction::Nothing)
    ));
}

#[test]
fn the_iteration_cap_stops_a_looping_run() {
    let cfg = RunConfig::from_cli(&cli(true, 2));
    let mut done = 0;
    let mut failed = None;
    for _ in 0..5 {
        let (n, action) = step(&cfg, done, RunEvent::ToolTurn);
        done = n;
        if let RunAction::Fail(e) = action {
            failed = Some(e);
            break;
        }
    }
    assert_eq!(done, 2);
    let e = failed.expect("the cap should end the run");
    assert_eq!(e, RunError::ToolLimit(2));
    assert_eq!(e.message(), "stopped after 2 tool iterations (--max-tool-iterations)");
}

#[test]
fn an_agent_error_ends_the_run() {
    let cfg = RunConfig::from_cli(&cli(false, 25));
    match step(&cfg, 3, RunEvent::Error("boom".into())) {
        (3, RunAction::Fail(e)) => assert_eq!(e.message(), "boom"),
        other => panic!("unexpected {other:?}"),
    }
}

#[test]
fn a_tool_call_is_named_by_its_command_else_its_path() {
    assert_eq!(tool_detail(Some("echo hi"), Some("f.txt")), "echo hi");
    assert_eq!(tool_detail(None, Some("src/main.rs")), "src/main.rs");
    assert_eq!(tool_detail(None, None), "");
}
