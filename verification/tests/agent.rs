use musicos::agent::{tool_reply, AgentConfig, AgentError, AgentRun, Step, ToolReply};

fn config(max_turns: u32) -> AgentConfig {
    AgentConfig { model: "m".to_string(), max_turns, max_tokens: 100 }
}

fn texts(v: &[&str]) -> Vec<String> {
    v.iter().map(|s| s.to_string()).collect()
}

#[test]
fn default_config_matches_the_documented_budget() {
    let c = AgentConfig::default();
    assert_eq!(c.model, "opus-4-8");
    assert_eq!(c.max_turns, 16);
    assert_eq!(c.max_tokens, 16_000);
}

#[test]
fn budget_caps_the_turns_and_keeps_the_last_reply() {
    let cfg = config(2);
    let mut run = AgentRun::new();
    assert!(run.begin_turn(&cfg).is_none());
    assert!(matches!(run.on_response("tool_use", &texts(&["working"]), 1), Step::RunTools));
    assert!(run.begin_turn(&cfg).is_none());
    assert!(matches!(run.on_response("tool_use", &texts(&[]), 2), Step::RunTools));
    let out = run.begin_turn(&cfg).expect("budget spent");
    assert!(out.budget_exhausted);
    assert_eq!(out.turns, 2);
    assert_eq!(out.tool_calls, 3);
    assert_eq!(out.reply, "working");
}

#[test]
fn end_turn_finishes_with_the_joined_text() {
    let mut run = AgentRun::new();
    run.begin_turn(&config(4));
    match run.on_response("end_turn", &texts(&["Added drums.", "Set tempo."]), 0) {
        Step::Finished(o) => {
            assert_eq!(o.reply, "Added drums.\nSet tempo.");
            assert_eq!(o.turns, 1);
            assert_eq!(o.tool_calls, 0);
            assert!(!o.budget_exhausted);
        },
        other => panic!("unexpected step {other:?}"),
    }
}

#[test]
fn blank_text_keeps_the_previous_reply() {
    let mut run = AgentRun::new();
    run.begin_turn(&config(4));
    run.on_response("pause_turn", &texts(&["first answer"]), 0);
    run.begin_turn(&config(4));
    match run.on_response("stop_sequence", &texts(&["  ", "\n"]), 0) {
        Step::Finished(o) => assert_eq!(o.reply, "first answer"),
        other => panic!("unexpected step {other:?}"),
    }
}

#[test]
fn refusal_truncation_and_protocol_errors() {
    let mut run = AgentRun::new();
    assert!(matches!(run.on_response("refusal", &texts(&[]), 0), Step::Failed(AgentError::Refusal)));
    assert!(matches!(run.on_response("max_tokens", &texts(&[]), 0), Step::Failed(AgentError::Truncated)));
    assert!(matches!(run.on_response("pause_turn", &texts(&[]), 0), Step::Resend));
    match run.on_response("tool_use", &texts(&[]), 0) {
        Step::Failed(e) => assert_eq!(
            e,
            AgentError::Protocol("stop_reason tool_use without tool_use blocks".to_string())
        ),
        other => panic!("unexpected step {other:?}"),
    }
    match run.on_response("weird", &texts(&[]), 0) {
        Step::Failed(e) => {
            assert_eq!(e.message(), "protocol: unexpected stop_reason 'weird'");
        },
        other => panic!("unexpected step {other:?}"),
    }
}

#[test]
fn error_messages() {
    assert_eq!(AgentError::Model("boom".into()).message(), "model backend: boom");
    assert_eq!(
        AgentError::Refusal.message(),
        "the model declined this request (stop_reason: refusal)"
    );
    assert_eq!(
        AgentError::Truncated.message(),
        "response truncated at max_tokens \u{2014} raise --max-tokens or simplify the request"
    );
}

#[test]
fn tool_errors_are_marked_for_the_model() {
    let ok = tool_reply(Ok("{\"done\":true}".to_string()));
    assert_eq!(ok, ToolReply { content: "{\"done\":true}".to_string(), is_error: false });
    let bad = tool_reply(Err("unknown track".to_string()));
    assert_eq!(bad, ToolReply { content: "unknown track".to_string(), is_error: true });
}
