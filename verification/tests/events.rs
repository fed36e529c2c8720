use copilot_sessions::events::{
    apply_event, checked_parse_events_line, classify_event, event_fits, parse_events_line,
    read_line, update_events_cache, Event, EventData, EventsCache, EventsResult,
};
use copilot_sessions::tail::{begin_update, finish_update, unread_cache};

#[test]
fn parse_events_line_counts_turn_start() {
    let mut result = EventsResult::default();
    parse_events_line(
        r#"{"type":"assistant.turn_start","data":{"turnId":"1"},"id":"a","timestamp":"2026-08-16T01:01:44.619Z"}"#,
        &mut result,
    );
    assert_eq!(result.turn_count, 1);
    parse_events_line(
        r#"{"type":"assistant.turn_start","data":{"turnId":"2"},"id":"b","timestamp":"2026-08-16T01:02:44.619Z"}"#,
        &mut result,
    );
    assert_eq!(result.turn_count, 2);
}

#[test]
fn parse_events_line_accumulates_output_tokens() {
    let mut result = EventsResult::default();
    parse_events_line(
        r#"{"type":"assistant.message","data":{"messageId":"m1","model":"opus-4.8","outputTokens":517}}"#,
        &mut result,
    );
    assert_eq!(result.total_output_tokens, 517);
    parse_events_line(
        r#"{"type":"assistant.message","data":{"messageId":"m2","model":"opus-4.8","outputTokens":93}}"#,
        &mut result,
    );
    assert_eq!(result.total_output_tokens, 610);
}

#[test]
fn parse_events_line_accumulates_token_history() {
    let mut result = EventsResult::default();
    parse_events_line(
        r#"{"type":"assistant.message","data":{"messageId":"m1","model":"opus-4.8","outputTokens":517}}"#,
        &mut result,
    );
    parse_events_line(
        r#"{"type":"assistant.message","data":{"messageId":"m2","model":"opus-4.8","outputTokens":93}}"#,
        &mut result,
    );
    assert_eq!(result.token_history, vec![517, 93]);
}

#[test]
fn parse_events_line_token_history_is_capped_at_ten_thousand() {
    let mut result = EventsResult::default();
    for _ in 0..10_005 {
        parse_events_line(
            r#"{"type":"assistant.message","data":{"messageId":"m","model":"x","outputTokens":1}}"#,
            &mut result,
        );
    }
    assert_eq!(result.token_history.len(), 10_000);
    assert_eq!(result.total_output_tokens, 10_005);
}

#[test]
fn parse_events_line_model_prefers_assistant_message_over_session_start() {
    let mut result = EventsResult::default();
    parse_events_line(
        r#"{"type":"session.start","data":{"sessionId":"s1","selectedModel":"gpt-5.5"}}"#,
        &mut result,
    );
    assert_eq!(result.model, "gpt-5.5");
    parse_events_line(
        r#"{"type":"assistant.message","data":{"messageId":"m1","model":"opus-4.8","outputTokens":10}}"#,
        &mut result,
    );
    assert_eq!(result.model, "opus-4.8");
}

#[test]
fn parse_events_line_session_resume_sets_model_only_when_unset() {
    let mut result = EventsResult::default();
    parse_events_line(
        r#"{"type":"assistant.message","data":{"messageId":"m1","model":"opus-4.8","outputTokens":10}}"#,
        &mut result,
    );
    parse_events_line(
        r#"{"type":"session.resume","data":{"sessionId":"s1","selectedModel":"gpt-5.5"}}"#,
        &mut result,
    );
    assert_eq!(
        result.model, "opus-4.8",
        "session.resume must not clobber a model already observed live"
    );
}

#[test]
fn parse_events_line_session_model_change_updates_effort() {
    let mut result = EventsResult::default();
    parse_events_line(
        r#"{"type":"session.model_change","data":{"contextTier":"default","newModel":"opus-5","previousModel":"opus-4.8","previousReasoningEffort":"xhigh","reasoningEffort":"medium"}}"#,
        &mut result,
    );
    assert_eq!(result.effort, "medium");
    assert_eq!(result.model, "opus-5");
}

#[test]
fn parse_events_line_session_start_seeds_initial_effort() {
    let mut result = EventsResult::default();
    parse_events_line(
        r#"{"type":"session.start","data":{"sessionId":"s1","selectedModel":"opus-4.8","reasoningEffort":"xhigh"}}"#,
        &mut result,
    );
    assert_eq!(result.effort, "xhigh");
}

#[test]
fn parse_events_line_session_resume_does_not_clobber_live_effort() {
    let mut result = EventsResult::default();
    parse_events_line(
        r#"{"type":"session.model_change","data":{"newModel":"opus-5","reasoningEffort":"medium"}}"#,
        &mut result,
    );
    parse_events_line(
        r#"{"type":"session.resume","data":{"sessionId":"s1","selectedModel":"gpt-5.5","reasoningEffort":"xhigh"}}"#,
        &mut result,
    );
    assert_eq!(
        result.effort, "medium",
        "session.resume must not clobber an effort already observed live"
    );
}

#[test]
fn parse_events_line_captures_context_from_compaction_start() {
    let mut result = EventsResult::default();
    parse_events_line(
        r#"{"type":"session.compaction_start","data":{"systemTokens":15570,"conversationTokens":136711,"toolDefinitionsTokens":9551,"currentTokens":161832,"tokenLimit":200000,"trigger":"threshold"}}"#,
        &mut result,
    );
    assert_eq!(result.context_tokens, 161832);
    assert_eq!(result.context_window, 200000);
}

#[test]
fn parse_events_line_ignores_malformed_and_unknown_lines() {
    let mut result = EventsResult::default();
    parse_events_line("not json at all", &mut result);
    parse_events_line("", &mut result);
    parse_events_line(r#"{"type":"tool.execution_start","data":{}}"#, &mut result);
    parse_events_line(r#"{"no_type_field":true}"#, &mut result);
    assert_eq!(result.turn_count, 0);
    assert_eq!(result.total_output_tokens, 0);
    assert!(result.model.is_empty());
    assert_eq!(result.context_tokens, 0);
    assert_eq!(result.context_window, 0);
}

#[test]
fn update_events_cache_reads_new_lines_incrementally() {
    let mut content: Vec<u8> = Vec::new();
    content.extend_from_slice(
        "{\"type\":\"assistant.turn_start\",\"data\":{\"turnId\":\"1\"}}\n".as_bytes(),
    );
    let mut cache = EventsCache {
        path: b"events.jsonl".to_vec(),
        offset: 0,
        partial: String::new(),
        result: EventsResult::default(),
    };
    assert!(update_events_cache(&mut cache, Some(content.as_slice())));
    assert_eq!(cache.result.turn_count, 1);

    // Append a second line; only the new bytes should be parsed.
    content.extend_from_slice(
        "{\"type\":\"assistant.turn_start\",\"data\":{\"turnId\":\"2\"}}\n".as_bytes(),
    );
    assert!(update_events_cache(&mut cache, Some(content.as_slice())));
    assert_eq!(cache.result.turn_count, 2);
    assert_eq!(cache.offset, content.len() as u64);
}

#[test]
fn update_events_cache_missing_file_is_a_noop() {
    let mut cache = EventsCache {
        path: b"does-not-exist.jsonl".to_vec(),
        offset: 0,
        partial: String::new(),
        result: EventsResult::default(),
    };
    assert!(update_events_cache(&mut cache, None));
    assert_eq!(cache.result.turn_count, 0);
    assert_eq!(cache.offset, 0);
}

#[test]
fn a_line_without_data_or_with_other_types_reads_no_fields() {
    let mut result = EventsResult::default();
    parse_events_line(r#"{"type":"assistant.message"}"#, &mut result);
    parse_events_line(
        r#"{"type":"assistant.message","data":{"outputTokens":-5,"model":7}}"#,
        &mut result,
    );
    parse_events_line(
        r#"{"type":"assistant.message","data":{"outputTokens":2.5,"model":""}}"#,
        &mut result,
    );
    parse_events_line(r#"{"type":17}"#, &mut result);
    parse_events_line(r#"["type","assistant.turn_start"]"#, &mut result);
    assert_eq!(result.total_output_tokens, 0);
    assert!(result.token_history.is_empty());
    assert!(result.model.is_empty());
    assert_eq!(result.turn_count, 0);
}

#[test]
fn an_empty_effort_replaces_only_on_model_change() {
    let mut result = EventsResult::default();
    parse_events_line(
        r#"{"type":"session.model_change","data":{"newModel":"","reasoningEffort":"high"}}"#,
        &mut result,
    );
    assert_eq!(result.model, "");
    assert_eq!(result.effort, "high");
    parse_events_line(
        r#"{"type":"session.model_change","data":{"reasoningEffort":""}}"#,
        &mut result,
    );
    assert_eq!(result.effort, "");
}

#[test]
fn a_carriage_return_at_the_end_makes_no_difference() {
    let mut result = EventsResult::default();
    parse_events_line("{\"type\":\"assistant.turn_start\"}\r", &mut result);
    parse_events_line("\r", &mut result);
    assert_eq!(result.turn_count, 1);
}

#[test]
fn counters_that_would_not_fit_are_refused() {
    let mut result = EventsResult::default();
    result.turn_count = u32::MAX;
    result.total_output_tokens = u64::MAX - 4;
    assert!(!checked_parse_events_line(
        r#"{"type":"assistant.turn_start"}"#,
        &mut result
    ));
    assert_eq!(result.turn_count, u32::MAX);
    assert!(!checked_parse_events_line(
        r#"{"type":"assistant.message","data":{"outputTokens":5}}"#,
        &mut result
    ));
    assert!(checked_parse_events_line(
        r#"{"type":"assistant.message","data":{"outputTokens":4}}"#,
        &mut result
    ));
    assert_eq!(result.total_output_tokens, u64::MAX);
    assert_eq!(result.token_history, vec![4]);
    assert!(checked_parse_events_line("nonsense", &mut result));
}

fn no_data() -> EventData<String> {
    EventData {
        output_tokens: None,
        model: None,
        selected_model: None,
        new_model: None,
        reasoning_effort: None,
        current_tokens: None,
        token_limit: None,
    }
}

#[test]
fn events_are_classified_by_type() {
    assert!(matches!(
        classify_event("assistant.turn_start", no_data()),
        Event::TurnStart
    ));
    let mut data = no_data();
    data.output_tokens = Some(3);
    data.model = Some("m".to_string());
    match classify_event("assistant.message", data) {
        Event::Message {
            output_tokens,
            model,
        } => {
            assert_eq!(output_tokens, Some(3));
            assert_eq!(model, Some("m".to_string()));
        }
        _ => panic!("not a message"),
    }
    assert!(matches!(
        classify_event("session.resume", no_data()),
        Event::SessionStart { .. }
    ));
    assert!(matches!(
        classify_event("session.compaction_start", no_data()),
        Event::CompactionStart { .. }
    ));
    assert!(matches!(
        classify_event("tool.execution_start", no_data()),
        Event::Unknown
    ));
}

#[test]
fn events_are_applied_in_order() {
    let mut result = EventsResult::default();
    let event = Event::Message {
        output_tokens: Some(7),
        model: Some("m".to_string()),
    };
    assert!(event_fits(&event, &result));
    apply_event(event, &mut result);
    apply_event(
        Event::SessionStart {
            model: Some("other".to_string()),
            effort: Some("low".to_string()),
        },
        &mut result,
    );
    assert_eq!(result.model, "m");
    assert_eq!(result.effort, "low");
    assert_eq!(result.token_history, vec![7]);
}

#[test]
fn read_line_finds_the_event() {
    assert!(matches!(
        read_line(r#"{"type":"assistant.turn_start"}"#),
        Some(Event::TurnStart)
    ));
    assert!(read_line("{}").is_none());
    assert!(read_line("").is_none());
}

#[test]
fn a_file_cut_into_pieces_adds_up_to_the_whole() {
    let content = "{\"type\":\"assistant.turn_start\"}\r\n\n{\"type\":\"assistant.message\",\"data\":{\"model\":\"é\",\"outputTokens\":5}}\r\n{\"type\":\"assist".as_bytes();
    let mut whole: EventsCache = unread_cache(b"e".to_vec());
    assert!(update_events_cache(&mut whole, Some(content)));
    for cut in 0..content.len() {
        if std::str::from_utf8(&content[..cut]).is_err() {
            continue;
        }
        let mut cache: EventsCache = unread_cache(b"e".to_vec());
        assert!(update_events_cache(&mut cache, Some(&content[..cut])));
        assert!(update_events_cache(&mut cache, Some(content)));
        assert_eq!(cache.result.turn_count, 1);
        assert_eq!(cache.result.model, "é");
        assert_eq!(cache.result.token_history, whole.result.token_history);
        assert_eq!(cache.partial, whole.partial);
        assert_eq!(cache.offset, whole.offset);
    }
    assert_eq!(whole.partial, "{\"type\":\"assist");
}

#[test]
fn a_cut_through_a_character_reads_as_replacement_characters() {
    let mut cache: EventsCache = unread_cache(b"e".to_vec());
    assert!(finish_update(&mut cache, &[0x61, 0xC3]));
    assert_eq!(cache.partial, "a\u{FFFD}");
}

#[test]
fn a_shorter_file_is_read_anew() {
    let mut cache: EventsCache = unread_cache(b"e".to_vec());
    let long = b"{\"type\":\"assistant.turn_start\"}\n{\"type\":\"assistant.turn_start\"}\nrest";
    assert!(update_events_cache(&mut cache, Some(&long[..])));
    assert_eq!(cache.result.turn_count, 2);
    let short = b"{\"type\":\"assistant.turn_start\"}\n";
    assert!(update_events_cache(&mut cache, Some(&short[..])));
    assert_eq!(cache.result.turn_count, 1);
    assert_eq!(cache.partial, "");
    assert_eq!(begin_update(&mut cache, short.len() as u64), None);
    assert_eq!(begin_update(&mut cache, 100), Some(short.len() as u64));
}

#[test]
fn an_update_stops_at_a_line_that_cannot_be_taken() {
    let mut cache: EventsCache = unread_cache(b"e".to_vec());
    cache.result.turn_count = u32::MAX;
    let content = b"{\"type\":\"session.start\",\"data\":{\"selectedModel\":\"a\"}}\n{\"type\":\"assistant.turn_start\"}\n{\"type\":\"session.model_change\",\"data\":{\"newModel\":\"b\"}}\n";
    assert!(!update_events_cache(&mut cache, Some(&content[..])));
    assert_eq!(cache.result.model, "a");
    assert_eq!(cache.result.turn_count, u32::MAX);
    assert_eq!(cache.offset, content.len() as u64);
}

#[test]
fn the_offset_counts_the_bytes_that_were_read() {
    let mut cache: EventsCache = unread_cache(b"e".to_vec());
    assert_eq!(begin_update(&mut cache, 3), Some(0));
    assert!(finish_update(&mut cache, b"abcde"));
    assert_eq!(cache.offset, 5);
    assert_eq!(cache.partial, "abcde");
    assert_eq!(begin_update(&mut cache, 5), None);
    assert_eq!(begin_update(&mut cache, 7), Some(5));
}

#[test]
fn more_bytes_than_can_be_counted_are_not_taken() {
    let mut cache: EventsCache = unread_cache(b"e".to_vec());
    cache.offset = u64::MAX - 1;
    assert!(!finish_update(&mut cache, b"ab"));
    assert_eq!(cache.offset, u64::MAX - 1);
    assert_eq!(cache.partial, "");
    assert!(finish_update(&mut cache, b"a"));
    assert_eq!(cache.offset, u64::MAX);
}
