//! Command-line surface: the parsed [`Cli`] and the [`Effort`] level that maps
//! onto the reasoning-effort budget of the agent.

use vstd::prelude::*;

verus! {

/// tapir coding agent — headless, one-shot.
///
/// The prompt is assembled from piped stdin, any `@file` references and the
/// remaining positional words, in that order.
#[derive(Debug)]
pub struct Cli {
    /// Model id looked up in the model catalog (e.g. `gpt-5`).
    pub model: String,
    /// Reasoning effort applied to every turn.
    pub effort: Effort,
    /// System prompt: literal text, or a path to a file to read.
    pub system_prompt: Option<String>,
    /// Text (or file path) appended to the system prompt. Repeatable.
    pub append_system_prompt: Vec<String>,
    /// API key for the model's provider. Falls back to the provider env var
    /// when unset.
    pub api_key: Option<String>,
    /// Disable the coding tools and run a pure text-only one-shot.
    pub no_tools: bool,
    /// Suppress tool-activity lines on stderr.
    pub quiet: bool,
    /// Cap on the number of tool iterations before the run stops.
    pub max_tool_iterations: usize,
    /// Prompt words and `@file` references. A positional starting with `@` is
    /// inlined as a file; the rest join into the message.
    pub prompt: Vec<String>,
}

/// Reasoning-effort level, from `off` through `max`.
#[derive(Debug, Clone, Copy, PartialEq, Eq, Structural)]
pub enum Effort {
    Off,
    Minimal,
    Low,
    Medium,
    High,
    Xhigh,
    Max,
}

/// The agent's thinking levels, one for each effort above `off`.
#[derive(Debug, Clone, Copy, PartialEq, Eq, Structural)]
pub enum ThinkingLevel {
    Minimal,
    Low,
    Medium,
    High,
    XHigh,
    Max,
}

/// The thinking level an effort asks for: none for `off`, otherwise the level
/// of the same name.
pub open spec fn thinking_of(e: Effort) -> Option<ThinkingLevel> {
    match e {
        Effort::Off => None,
        Effort::Minimal => Some(ThinkingLevel::Minimal),
        Effort::Low => Some(ThinkingLevel::Low),
        Effort::Medium => Some(ThinkingLevel::Medium),
        Effort::High => Some(ThinkingLevel::High),
        Effort::Xhigh => Some(ThinkingLevel::XHigh),
        Effort::Max => Some(ThinkingLevel::Max),
    }
}

impl Effort {
    /// The level to apply, or `None` for `Off` (leave the provider default, no
    /// thinking budget).
    pub fn to_thinking(self) -> (r: Option<ThinkingLevel>)
        ensures
            r == thinking_of(self),
    {
        match self {
            Effort::Off => None,
            Effort::Minimal => Some(ThinkingLevel::Minimal),
            Effort::Low => Some(ThinkingLevel::Low),
            Effort::Medium => Some(ThinkingLevel::Medium),
            Effort::High => Some(ThinkingLevel::High),
            Effort::Xhigh => Some(ThinkingLevel::XHigh),
            Effort::Max => Some(ThinkingLevel::Max),
        }
    }
}

/// Distinct efforts ask for distinct thinking levels, and only `off` asks for
/// none.
pub proof fn lemma_to_thinking_injective(a: Effort, b: Effort)
    ensures
        thinking_of(a) == thinking_of(b) ==> a == b,
        thinking_of(a) is None <==> a == Effort::Off,
{
}

/// The place of an effort in the scale from `off` (0) to `max` (6).
pub open spec fn effort_rank(e: Effort) -> int {
    match e {
        Effort::Off => 0,
        Effort::Minimal => 1,
        Effort::Low => 2,
        Effort::Medium => 3,
        Effort::High => 4,
        Effort::Xhigh => 5,
        Effort::Max => 6,
    }
}

/// The place of a thinking level in the scale from `minimal` (1) to `max`
/// (6).
pub open spec fn level_rank(l: ThinkingLevel) -> int {
    match l {
        ThinkingLevel::Minimal => 1,
        ThinkingLevel::Low => 2,
        ThinkingLevel::Medium => 3,
        ThinkingLevel::High => 4,
        ThinkingLevel::XHigh => 5,
        ThinkingLevel::Max => 6,
    }
}

/// Each effort above `off` asks for the thinking level at the same place in
/// the scale, so a higher effort never asks for a lower level.
pub proof fn lemma_effort_keeps_its_place(a: Effort, b: Effort)
    ensures
        thinking_of(a) matches Some(l) ==> level_rank(l) == effort_rank(a),
        thinking_of(a) is None <==> effort_rank(a) == 0,
        effort_rank(a) <= effort_rank(b) && thinking_of(a) is Some ==> (thinking_of(b) matches Some(
            lb,
        ) && level_rank(thinking_of(a)->0) <= level_rank(lb)),
{
}

} // verus!

