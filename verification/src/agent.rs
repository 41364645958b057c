//! The decisions of the API-mode agent loop.
//!
//! The loop sends the conversation to a model, reads back a stop reason, the
//! text blocks and the tool calls of the response, and decides what happens
//! next: finish with a reply, fail, send again, or run the tool calls and send
//! their results. Budgets cap the number of round-trips. The transport, the
//! JSON bodies and the tool execution are the caller's; every decision is
//! here, as a step from the run's state and the response to the next state
//! and action.

use vstd::prelude::*;
use crate::text::{chars_eq, chars_of, is_whitespace, is_ws, string_of, copy_string};

verus! {

broadcast use vstd::seq_lib::group_seq_properties;

/// System prompt for the production agent. Stable text first: it is the
/// prompt-cache prefix.
pub const SYSTEM_PROMPT: &'static str = "You are the MusicOS production agent. You control a real music project exclusively through the provided tools; every mutation is validated, logged, and undoable. Start with get_project_summary when project state is unknown. Prefer the fewest tool calls that accomplish the request; render_song is slow, so call it once, at the end, and only if the user asked for audio. If a tool returns an error, adjust and retry rather than giving up. When finished, reply with one short sentence per change you made.";

/// Budgets and model configuration for one agent run.
#[derive(Debug, Clone)]
pub struct AgentConfig {
    /// Model id (Anthropic naming).
    pub model: String,
    /// Hard cap on model round-trips (runaway-agent protection).
    pub max_turns: u32,
    /// Per-response output-token ceiling.
    pub max_tokens: u32,
}

impl Default for AgentConfig {
    fn default() -> (r: AgentConfig)
        ensures
            r.model@ == "opus-4-8"@,
            r.max_turns == 16,
            r.max_tokens == 16_000,
    {
        AgentConfig { model: String::from_str("opus-4-8"), max_turns: 16, max_tokens: 16_000 }
    }
}

/// What an agent run produced.
#[derive(Debug)]
pub struct AgentOutcome {
    /// The model's final text answer.
    pub reply: String,
    /// Number of model round-trips used.
    pub turns: u32,
    /// Number of tool calls executed (including rejected ones).
    pub tool_calls: u32,
    /// True if the run stopped because a budget was exhausted.
    pub budget_exhausted: bool,
}

/// Errors from an agent run.
#[derive(Debug, PartialEq, Eq)]
pub enum AgentError {
    /// Transport or API failure from the model backend.
    Model(String),
    /// The model declined the request for safety reasons.
    Refusal,
    /// The response hit the output-token ceiling.
    Truncated,
    /// The response did not match the Messages API contract.
    Protocol(String),
}

/// The state of a run between round-trips.
#[derive(Debug)]
pub struct AgentRun {
    /// Round-trips started so far.
    pub turns: u32,
    /// Tool calls executed so far.
    pub tool_calls: u32,
    /// The last non-blank text the model produced.
    pub last_text: String,
}

/// What the loop does after a response.
#[derive(Debug)]
pub enum Step {
    /// Stop and return this outcome.
    Finished(AgentOutcome),
    /// Stop with this error.
    Failed(AgentError),
    /// Echo the assistant turn and send again (a server-side pause).
    Resend,
    /// Echo the assistant turn, execute every tool call, and send all the
    /// results back in one user message.
    RunTools,
}

/// What is sent back for one tool call: the tool's output, or the reason
/// it was rejected marked as an error so that the model can correct itself.
#[derive(Debug, Clone, PartialEq, Eq)]
pub struct ToolReply {
    /// The output, or the rejection message.
    pub content: String,
    /// Whether the call was rejected.
    pub is_error: bool,
}

/// The reply to one tool call from what the tool returned.
pub fn tool_reply(result: Result<String, String>) -> (r: ToolReply)
    ensures
        match result {
            Ok(out) => r.content@ == out@ && !r.is_error,
            Err(why) => r.content@ == why@ && r.is_error,
        },
{
    match result {
        Ok(out) => ToolReply { content: out, is_error: false },
        Err(why) => ToolReply { content: why, is_error: true },
    }
}

/// Text blocks joined by line breaks.
pub open spec fn join_lines(parts: Seq<Seq<char>>) -> Seq<char>
    decreases parts.len(),
{
    if parts.len() == 0 {
        Seq::empty()
    } else if parts.len() == 1 {
        parts[0]
    } else {
        join_lines(parts.drop_last()) + seq!['\n'] + parts.last()
    }
}

/// Every character is whitespace (the text trims to nothing).
pub open spec fn blank(s: Seq<char>) -> bool {
    forall|i: int| 0 <= i < s.len() ==> is_ws(#[trigger] s[i])
}

/// The views of a list of strings.
pub open spec fn views(v: Seq<String>) -> Seq<Seq<char>> {
    v.map_values(|s: String| s@)
}

/// The reply kept after a response with text blocks `texts`.
pub open spec fn next_text(last: Seq<char>, texts: Seq<Seq<char>>) -> Seq<char> {
    if blank(join_lines(texts)) {
        last
    } else {
        join_lines(texts)
    }
}

/// The protocol message for a stop reason outside the Messages API.
pub open spec fn unexpected_stop(reason: Seq<char>) -> Seq<char> {
    "unexpected stop_reason '"@ + reason + "'"@
}

/// The protocol message for `tool_use` with no tool calls.
pub open spec fn missing_tool_calls() -> Seq<char> {
    "stop_reason tool_use without tool_use blocks"@
}

impl AgentError {
    /// Human-readable description.
    pub fn message(&self) -> (r: String)
        ensures
            self matches AgentError::Model(m) ==> r@ == "model backend: "@ + m@,
            self is Refusal ==> r@ == "the model declined this request (stop_reason: refusal)"@,
            self is Truncated ==> r@
                == "response truncated at max_tokens \u{2014} raise --max-tokens or simplify the request"@,
            self matches AgentError::Protocol(m) ==> r@ == "protocol: "@ + m@,
    {
        match self {
            AgentError::Model(m) => concat_str("model backend: ", m.as_str()),
            AgentError::Refusal => String::from_str(
                "the model declined this request (stop_reason: refusal)",
            ),
            AgentError::Truncated => String::from_str(
                "response truncated at max_tokens \u{2014} raise --max-tokens or simplify the request",
            ),
            AgentError::Protocol(m) => concat_str("protocol: ", m.as_str()),
        }
    }
}

/// Appends the characters of `s` to `v`.
fn push_all(v: &mut Vec<char>, s: &str)
    ensures
        final(v)@ == old(v)@ + s@,
{
    let c = chars_of(s);
    let ghost start = v@;
    let mut i: usize = 0;
    while i < c.len()
        invariant
            i <= c@.len(),
            c@ == s@,
            v@ == start + c@.subrange(0, i as int),
        decreases c@.len() - i,
    {
        v.push(c[i]);
        i += 1;
    }
    assert(c@.subrange(0, c@.len() as int) =~= c@);
}

/// `a` followed by `b`.
fn concat_str(a: &str, b: &str) -> (r: String)
    ensures
        r@ == a@ + b@,
{
    let mut v: Vec<char> = Vec::new();
    push_all(&mut v, a);
    push_all(&mut v, b);
    string_of(&v)
}

/// Whether every character of `s` is whitespace.
fn is_blank(s: &Vec<char>) -> (r: bool)
    ensures
        r == blank(s@),
{
    let mut i: usize = 0;
    while i < s.len()
        invariant
            i <= s@.len(),
            forall|j: int| 0 <= j < i ==> is_ws(#[trigger] s@[j]),
        decreases s@.len() - i,
    {
        if !is_whitespace(s[i]) {
            return false;
        }
        i += 1;
    }
    true
}

/// The text blocks joined by line breaks.
fn join_texts(texts: &Vec<String>) -> (r: Vec<char>)
    ensures
        r@ == join_lines(views(texts@)),
{
    let ghost all = views(texts@);
    let mut r: Vec<char> = Vec::new();
    let mut k: usize = 0;
    assert(all.subrange(0, 0) =~= Seq::<Seq<char>>::empty());
    while k < texts.len()
        invariant
            all == views(texts@),
            k <= texts@.len(),
            r@ == join_lines(all.subrange(0, k as int)),
        decreases texts@.len() - k,
    {
        let ghost pre = all.subrange(0, k as int);
        let ghost next = all.subrange(0, k + 1);
        if k > 0 {
            r.push('\n');
        }
        push_all(&mut r, texts[k].as_str());
        proof {
            assert(next.drop_last() =~= pre);
            assert(next.last() == texts@[k as int]@);
            if k == 0 {
                assert(r@ =~= next[0]);
            } else {
                assert(r@ =~= join_lines(pre) + seq!['\n'] + next.last());
            }
        }
        k += 1;
    }
    assert(all.subrange(0, texts@.len() as int) =~= all);
    r
}

impl AgentRun {
    /// A run that has not started.
    pub fn new() -> (r: AgentRun)
        ensures
            r.turns == 0,
            r.tool_calls == 0,
            r.last_text@ == Seq::<char>::empty(),
    {
        AgentRun { turns: 0, tool_calls: 0, last_text: String::new() }
    }

    /// Starts a round-trip, or ends the run when the turn budget is spent:
    /// then the outcome carries the last reply and `budget_exhausted`.
    /// A run that starts within its budget never exceeds it.
    pub fn begin_turn(&mut self, config: &AgentConfig) -> (r: Option<AgentOutcome>)
        ensures
            old(self).turns >= config.max_turns ==> {
                &&& r matches Some(o) && o.reply@ == old(self).last_text@ && o.turns == old(
                    self,
                ).turns && o.tool_calls == old(self).tool_calls && o.budget_exhausted
                &&& final(self).turns == old(self).turns
            },
            old(self).turns < config.max_turns ==> r is None && final(self).turns == old(
                self,
            ).turns + 1,
            old(self).turns <= config.max_turns ==> final(self).turns <= config.max_turns,
            final(self).tool_calls == old(self).tool_calls,
            final(self).last_text@ == old(self).last_text@,
    {
        if self.turns >= config.max_turns {
            return Some(
                AgentOutcome {
                    reply: copy_string(&self.last_text),
                    turns: self.turns,
                    tool_calls: self.tool_calls,
                    budget_exhausted: true,
                },
            );
        }
        self.turns = self.turns + 1;
        None
    }

    /// Decides what follows a response with stop reason `stop_reason`, text
    /// blocks `texts`, and `tool_uses` tool calls. Non-blank text replaces
    /// the kept reply; the tool calls are counted when they are to be run.
    pub fn on_response(&mut self, stop_reason: &str, texts: &Vec<String>, tool_uses: u32) -> (r:
        Step)
        requires
            old(self).tool_calls + tool_uses <= u32::MAX,
        ensures
            final(self).turns == old(self).turns,
            final(self).last_text@ == next_text(old(self).last_text@, views(texts@)),
            final(self).tool_calls == if stop_reason@ == "tool_use"@ {
                old(self).tool_calls + tool_uses
            } else {
                old(self).tool_calls as int
            },
            (stop_reason@ == "end_turn"@ || stop_reason@ == "stop_sequence"@) ==> (r matches Step::Finished(
                o,
            ) && o.reply@ == final(self).last_text@ && o.turns == final(self).turns && o.tool_calls
                == final(self).tool_calls && !o.budget_exhausted),
            stop_reason@ == "refusal"@ ==> r matches Step::Failed(AgentError::Refusal),
            stop_reason@ == "max_tokens"@ ==> r matches Step::Failed(AgentError::Truncated),
            stop_reason@ == "pause_turn"@ ==> r is Resend,
            stop_reason@ == "tool_use"@ && tool_uses > 0 ==> r is RunTools,
            stop_reason@ == "tool_use"@ && tool_uses == 0 ==> (r matches Step::Failed(
                AgentError::Protocol(m),
            ) && m@ == missing_tool_calls()),
            !(stop_reason@ == "end_turn"@ || stop_reason@ == "stop_sequence"@ || stop_reason@
                == "refusal"@ || stop_reason@ == "max_tokens"@ || stop_reason@ == "pause_turn"@
                || stop_reason@ == "tool_use"@) ==> (r matches Step::Failed(AgentError::Protocol(m))
                && m@ == unexpected_stop(stop_reason@)),
    {
        let joined = join_texts(texts);
        if !is_blank(&joined) {
            self.last_text = string_of(&joined);
        }
        let reason = chars_of(stop_reason);
        proof {
            reveal_strlit("end_turn");
            reveal_strlit("stop_sequence");
            reveal_strlit("refusal");
            reveal_strlit("max_tokens");
            reveal_strlit("pause_turn");
            reveal_strlit("tool_use");
            assert("end_turn"@.len() == 8 && "end_turn"@[0] == 'e');
            assert("stop_sequence"@.len() == 13);
            assert("refusal"@.len() == 7);
            assert("max_tokens"@.len() == 10 && "max_tokens"@[0] == 'm');
            assert("pause_turn"@.len() == 10 && "pause_turn"@[0] == 'p');
            assert("tool_use"@.len() == 8 && "tool_use"@[0] == 't');
        }
        if chars_eq(&reason, "end_turn") || chars_eq(&reason, "stop_sequence") {
            Step::Finished(
                AgentOutcome {
                    reply: copy_string(&self.last_text),
                    turns: self.turns,
                    tool_calls: self.tool_calls,
                    budget_exhausted: false,
                },
            )
        } else if chars_eq(&reason, "refusal") {
            Step::Failed(AgentError::Refusal)
        } else if chars_eq(&reason, "max_tokens") {
            Step::Failed(AgentError::Truncated)
        } else if chars_eq(&reason, "pause_turn") {
            Step::Resend
        } else if chars_eq(&reason, "tool_use") {
            self.tool_calls = self.tool_calls + tool_uses;
            if tool_uses == 0 {
                Step::Failed(
                    AgentError::Protocol(
                        String::from_str("stop_reason tool_use without tool_use blocks"),
                    ),
                )
            } else {
                Step::RunTools
            }
        } else {
            let mut v: Vec<char> = Vec::new();
            push_all(&mut v, "unexpected stop_reason '");
            push_all(&mut v, stop_reason);
            push_all(&mut v, "'");
            Step::Failed(AgentError::Protocol(string_of(&v)))
        }
    }
}

} // verus!
