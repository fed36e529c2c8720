use copilot_sessions::resolve::{
    context_window_for_model, resolved_context_tokens, resolved_context_window, resolved_effort,
    resolved_model, resolved_turn_count,
};
use copilot_sessions::settings::{read_effort_from_settings, read_model_from_settings};

#[test]
fn resolved_model_prefers_events_over_fallback() {
    assert_eq!(
        resolved_model("opus-4.8", "gpt-5.5"),
        "opus-4.8"
    );
    assert_eq!(resolved_model("", "gpt-5.5"), "gpt-5.5");
}

#[test]
fn resolved_effort_prefers_events_over_fallback() {
    assert_eq!(resolved_effort("xhigh", "medium"), "xhigh");
    assert_eq!(resolved_effort("", "medium"), "medium");
}

#[test]
fn resolved_turn_count_prefers_events_over_log() {
    assert_eq!(resolved_turn_count(7, 0), 7);
    assert_eq!(resolved_turn_count(0, 3), 3);
    assert_eq!(resolved_turn_count(0, 0), 0);
}

#[test]
fn resolved_context_tokens_prefers_events_over_log() {
    assert_eq!(resolved_context_tokens(161832, 0), 161832);
    assert_eq!(resolved_context_tokens(0, 5000), 5000);
}

#[test]
fn resolved_context_window_falls_back_to_model_heuristic() {
    assert_eq!(
        resolved_context_window(200_000, 0, "opus-4.8"),
        200_000
    );
    assert_eq!(
        resolved_context_window(0, 128_000, "opus-4.8"),
        128_000
    );
    assert_eq!(
        resolved_context_window(0, 0, "opus-4.8[1m]"),
        1_000_000
    );
    assert_eq!(resolved_context_window(0, 0, "opus-4.8"), 200_000);
}

#[test]
fn context_window_for_model_reads_the_name() {
    assert_eq!(context_window_for_model(""), 200_000);
    assert_eq!(context_window_for_model("x[1m]y"), 1_000_000);
}

#[test]
fn read_effort_from_settings_reads_effort_level_key() {
    let content = r#"{"model":"gpt-5.5","effortLevel":"xhigh"}"#;
    assert_eq!(read_effort_from_settings(Some(content)), "xhigh");
}

#[test]
fn read_effort_from_settings_missing_file_is_empty() {
    assert_eq!(read_effort_from_settings(None), "");
}

#[test]
fn read_model_from_settings_reads_model_key() {
    let content = r#"{"model":"gpt-5.5","effortLevel":"xhigh"}"#;
    assert_eq!(read_model_from_settings(Some(content)), "gpt-5.5");
    assert_eq!(read_model_from_settings(Some("{}")), "");
    assert_eq!(read_model_from_settings(Some("[\"model\"]")), "");
    assert_eq!(read_model_from_settings(Some(r#"{"model":5}"#)), "");
    assert_eq!(read_model_from_settings(Some("no json")), "");
    assert_eq!(read_model_from_settings(None), "");
}
