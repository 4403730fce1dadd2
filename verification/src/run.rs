//! The one-shot run's decisions: which piped input counts, whether there is a
//! prompt at all, which credential a model gets, and how each event of the
//! agent's reply stream is handled — text to stdout, tool activity to stderr
//! unless quiet, and a cap on tool iterations.
//!
//! Reading stdin, loading the model catalog, building the agent and performing
//! each action are the caller's part.

use vstd::prelude::*;

use crate::cli::Cli;
use crate::text::{chars_of, decimal, is_blank, is_blank_chars, push_decimal, push_str};

verus! {

/// Why a run did not complete.
#[derive(Debug, PartialEq, Eq)]
pub enum RunError {
    /// Nothing to send: no stdin, no non-empty file and no message words.
    NoPrompt,
    /// The model catalog holds no model of this id.
    UnknownModel(String),
    /// Neither `--api-key` nor the catalog supplied a key for the model.
    NoCredential {
        /// The model id asked for.
        model: String,
        /// The provider that serves it.
        provider: String,
        /// What to set to supply the key.
        env_var: String,
    },
    /// The model asked for tools more often than the cap allows.
    ToolLimit(usize),
    /// The agent reported an error.
    Agent(String),
}

/// The text read from a pipe counts as input only when it is not blank.
pub fn piped_input(buf: String) -> (r: Option<String>)
    ensures
        match r {
            Some(s) => s == buf && !is_blank(buf@),
            None => is_blank(buf@),
        },
{
    let v = chars_of(buf.as_str());
    if is_blank_chars(&v) {
        None
    } else {
        Some(buf)
    }
}

/// Refuse a run whose assembled prompt is blank.
pub fn require_prompt(prompt: &str) -> (r: Result<(), RunError>)
    ensures
        r is Err <==> is_blank(prompt@),
        r matches Err(e) ==> e == RunError::NoPrompt,
{
    let v = chars_of(prompt);
    if is_blank_chars(&v) {
        Err(RunError::NoPrompt)
    } else {
        Ok(())
    }
}

/// The text named when a provider's key variable is not known.
pub open spec fn unnamed_env_var() -> Seq<char> {
    "its API-key environment variable"@
}

/// The key a model is run with: `--api-key` when given, otherwise the key the
/// catalog resolved from the provider's environment variable. With neither,
/// the error names the variable to set (`env_var`, when the provider is
/// known).
pub fn resolve_credential(
    model: &str,
    provider: &str,
    catalog_key: Option<String>,
    api_key: Option<&str>,
    env_var: Option<&str>,
) -> (r: Result<String, RunError>)
    ensures
        match r {
            Ok(k) => match api_key {
                Some(a) => k@ == a@,
                None => catalog_key matches Some(c) && k@ == c@,
            },
            Err(e) => {
                &&& api_key is None
                &&& catalog_key is None
                &&& e matches RunError::NoCredential { model: m, provider: p, env_var: v }
                &&& m@ == model@
                &&& p@ == provider@
                &&& v@ == match env_var {
                    Some(s) => s@,
                    None => unnamed_env_var(),
                }
            },
        },
{
    match api_key {
        Some(a) => Ok(a.to_owned()),
        None => match catalog_key {
            Some(c) => Ok(c),
            None => {
                let v = match env_var {
                    Some(s) => s.to_owned(),
                    None => {
                        let mut t = String::new();
                        push_str(&mut t, "its API-key environment variable");
                        assert(t@ =~= unnamed_env_var());
                        t
                    },
                };
                Err(
                    RunError::NoCredential {
                        model: model.to_owned(),
                        provider: provider.to_owned(),
                        env_var: v,
                    },
                )
            },
        },
    }
}

/// The message reported for a run error.
pub open spec fn run_error_message(e: RunError) -> Seq<char> {
    match e {
        RunError::NoPrompt => "no prompt provided"@,
        RunError::UnknownModel(m) => "unknown model id `"@ + m@ + "`"@,
        RunError::NoCredential { model, provider, env_var } => "no credential for model "@
            + model@ + " (provider "@ + provider@ + "); pass --api-key or set "@ + env_var@,
        RunError::ToolLimit(n) => "stopped after "@ + decimal(n as nat)
            + " tool iterations (--max-tool-iterations)"@,
        RunError::Agent(m) => m@,
    }
}

impl RunError {
    /// The message reported for this error.
    pub fn message(&self) -> (r: String)
        ensures
            r@ == run_error_message(*self),
    {
        let mut r = String::new();
        match self {
            RunError::NoPrompt => push_str(&mut r, "no prompt provided"),
            RunError::UnknownModel(m) => {
                push_str(&mut r, "unknown model id `");
                push_str(&mut r, m.as_str());
                push_str(&mut r, "`");
            },
            RunError::NoCredential { model, provider, env_var } => {
                push_str(&mut r, "no credential for model ");
                push_str(&mut r, model.as_str());
                push_str(&mut r, " (provider ");
                push_str(&mut r, provider.as_str());
                push_str(&mut r, "); pass --api-key or set ");
                push_str(&mut r, env_var.as_str());
            },
            RunError::ToolLimit(n) => {
                push_str(&mut r, "stopped after ");
                push_decimal(&mut r, *n as u64);
                push_str(&mut r, " tool iterations (--max-tool-iterations)");
            },
            RunError::Agent(m) => push_str(&mut r, m.as_str()),
        }
        assert(r@ =~= run_error_message(*self));
        r
    }
}

// ---------------------------------------------------------------------------
// Handling the reply stream
// ---------------------------------------------------------------------------

/// What the run does with tool activity.
#[derive(Debug, Clone, Copy, PartialEq, Eq, Structural)]
pub struct RunConfig {
    /// Suppress tool-activity lines on stderr.
    pub quiet: bool,
    /// Cap on the number of tool iterations.
    pub max_tool_iterations: usize,
    /// Offer the model no tools.
    pub no_tools: bool,
}

impl RunConfig {
    /// The run configuration the command line asks for.
    pub fn from_cli(cli: &Cli) -> (c: RunConfig)
        ensures
            c.quiet == cli.quiet,
            c.max_tool_iterations == cli.max_tool_iterations,
            c.no_tools == cli.no_tools,
    {
        RunConfig {
            quiet: cli.quiet,
            max_tool_iterations: cli.max_tool_iterations,
            no_tools: cli.no_tools,
        }
    }
}

/// An event of the agent's reply stream.
#[derive(Debug)]
pub enum RunEvent {
    /// A piece of assistant text.
    TextDelta(String),
    /// The model asked for a batch of tool calls, about to run.
    ToolTurn,
    /// One tool call about to run: the tool's name and the argument that
    /// identifies what it works on (a command or a path).
    ToolCall { name: String, detail: String },
    /// The agent reported an error.
    Error(String),
    /// The reply is complete.
    Done,
}

/// What to do for one event.
#[derive(Debug)]
pub enum RunAction {
    /// Write this text to stdout.
    Stdout(String),
    /// Write this line to stderr.
    Stderr(String),
    /// End the run with this error.
    Fail(RunError),
    /// Nothing to do.
    Nothing,
}

/// What a tool call's activity line names as its subject: the `command`
/// argument when it has one, else the `path` argument, else nothing.
pub open spec fn detail_text(command: Option<Seq<char>>, path: Option<Seq<char>>) -> Seq<char> {
    match command {
        Some(c) => c,
        None => match path {
            Some(p) => p,
            None => seq![],
        },
    }
}

/// The subject of a tool call's activity line, from its `command` and `path`
/// arguments (each given when the call has it as a string).
pub fn tool_detail(command: Option<&str>, path: Option<&str>) -> (r: String)
    ensures
        r@ == detail_text(
            match command {
                Some(c) => Some(c@),
                None => None,
            },
            match path {
                Some(p) => Some(p@),
                None => None,
            },
        ),
{
    match command {
        Some(c) => c.to_owned(),
        None => match path {
            Some(p) => p.to_owned(),
            None => String::new(),
        },
    }
}

/// The tool iterations so far, after the model asks for one more: one more
/// while under the cap, `None` when the cap is already reached.
pub open spec fn turn_outcome(max: usize, done: usize) -> Option<usize> {
    if done >= max {
        None
    } else {
        Some((done + 1) as usize)
    }
}

/// The stderr line that reports a tool call.
pub open spec fn activity_line(name: Seq<char>, detail: Seq<char>) -> Seq<char> {
    name + "("@ + detail + ")\n"@
}

/// Decide what to do for `event`, given the run's configuration and the tool
/// iterations done so far; returns the tool iterations after the event and
/// the action. Text goes to stdout as it arrives, a newline ends the reply,
/// tool calls are reported on stderr unless quiet, an agent error ends the run,
/// and asking for tools once the cap is reached ends it too.
pub fn step(cfg: &RunConfig, done: usize, event: RunEvent) -> (r: (usize, RunAction))
    ensures
        match event {
            RunEvent::TextDelta(t) => {
                &&& r.0 == done
                &&& r.1 matches RunAction::Stdout(s)
                &&& s@ == t@
            },
            RunEvent::ToolTurn => match turn_outcome(cfg.max_tool_iterations, done) {
                Some(n) => r.0 == n && r.1 is Nothing,
                None => {
                    &&& r.0 == done
                    &&& r.1 matches RunAction::Fail(e)
                    &&& e == RunError::ToolLimit(cfg.max_tool_iterations)
                },
            },
            RunEvent::ToolCall { name, detail } => {
                &&& r.0 == done
                &&& cfg.quiet ==> r.1 is Nothing
                &&& !cfg.quiet ==> (r.1 matches RunAction::Stderr(s) && s@ == activity_line(
                    name@,
                    detail@,
                ))
            },
            RunEvent::Error(m) => {
                &&& r.0 == done
                &&& r.1 matches RunAction::Fail(e)
                &&& e == RunError::Agent(m)
            },
            RunEvent::Done => {
                &&& r.0 == done
                &&& r.1 matches RunAction::Stdout(s)
                &&& s@ == seq!['\n']
            },
        },
{
    match event {
        RunEvent::TextDelta(t) => (done, RunAction::Stdout(t)),
        RunEvent::ToolTurn => {
            if done >= cfg.max_tool_iterations {
                (done, RunAction::Fail(RunError::ToolLimit(cfg.max_tool_iterations)))
            } else {
                (done + 1, RunAction::Nothing)
            }
        },
        RunEvent::ToolCall { name, detail } => {
            if cfg.quiet {
                (done, RunAction::Nothing)
            } else {
                let mut s = name;
                push_str(&mut s, "(");
                push_str(&mut s, detail.as_str());
                push_str(&mut s, ")\n");
                (done, RunAction::Stderr(s))
            }
        },
        RunEvent::Error(m) => (done, RunAction::Fail(RunError::Agent(m))),
        RunEvent::Done => {
            let mut s = String::new();
            push_str(&mut s, "\n");
            proof {
                reveal_strlit("\n");
            }
            assert(s@ =~= seq!['\n']);
            (done, RunAction::Stdout(s))
        },
    }
}

/// The tool iterations after `turns` more requests for tools, starting from
/// `done`; `None` once a request found the cap reached.
pub open spec fn after_turns(max: usize, done: usize, turns: nat) -> Option<usize>
    decreases turns,
{
    if turns == 0 {
        Some(done)
    } else {
        match after_turns(max, done, (turns - 1) as nat) {
            Some(k) => turn_outcome(max, k),
            None => None,
        }
    }
}

proof fn lemma_after_turns_under_cap(max: usize, turns: nat)
    requires
        turns <= max,
    ensures
        after_turns(max, 0, turns) == Some(turns as usize),
    decreases turns,
{
    if turns > 0 {
        lemma_after_turns_under_cap(max, (turns - 1) as nat);
    }
}

/// The iteration cap: starting a run, the model may ask for tools exactly
/// `max` times; asking once more ends the run.
pub proof fn lemma_iteration_cap(max: usize)
    ensures
        after_turns(max, 0, max as nat) == Some(max),
        after_turns(max, 0, (max + 1) as nat) is None,
        forall|t: nat| t > max ==> #[trigger] after_turns(max, 0, t) is None,
{
    lemma_after_turns_under_cap(max, max as nat);
    assert forall|t: nat| t > max implies #[trigger] after_turns(max, 0, t) is None by {
        lemma_after_turns_stays_failed(max, t);
    }
}

proof fn lemma_after_turns_stays_failed(max: usize, t: nat)
    requires
        t > max,
    ensures
        after_turns(max, 0, t) is None,
    decreases t,
{
    if t == max + 1 {
        lemma_after_turns_under_cap(max, max as nat);
    } else {
        lemma_after_turns_stays_failed(max, (t - 1) as nat);
    }
}

} // verus!
