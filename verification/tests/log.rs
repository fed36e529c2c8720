use copilot_sessions::log::{
    apply_log_line, can_take_line, checked_parse_log_line, is_uuid, parse_compaction_line,
    parse_log_line, parse_log_timestamp, stamp_of, strip_log_prefix, update_log_cache, LogCache,
    LogResult,
};
use copilot_sessions::tail::unread_cache;

#[test]
fn is_uuid_valid() {
    assert!(is_uuid("e840638a-9964-44a8-b41e-4ca8afe82103"));
    assert!(!is_uuid("not-a-uuid"));
    assert!(!is_uuid("e840638a-9964-44a8-b41e")); // too short
}

#[test]
fn is_uuid_wants_every_group_in_its_place() {
    assert!(is_uuid("E840638A-9964-44A8-B41E-4CA8AFE82103"));
    assert!(!is_uuid("e840638a-9964-44a8-b41e-4ca8afe8210"));
    assert!(!is_uuid("e840638a-9964-44a8-b41e-4ca8afe821033"));
    assert!(!is_uuid("e840638a9-964-44a8-b41e-4ca8afe82103"));
    assert!(!is_uuid("g840638a-9964-44a8-b41e-4ca8afe82103"));
    assert!(!is_uuid("e840638a-9964-44a8-b41e-4ca8afe8210é"));
    assert!(!is_uuid(""));
}

#[test]
fn parse_log_timestamp_valid() {
    let line = "2026-05-07T07:41:48.151Z [INFO] Starting Copilot CLI: 1.0.43";
    let ts = parse_log_timestamp(line);
    assert!(ts > 0);
    assert_eq!(ts, 1_778_139_708_151);
}

#[test]
fn parse_log_timestamp_invalid() {
    let ts = parse_log_timestamp("not a log line");
    assert_eq!(ts, 0);
}

#[test]
fn parse_log_timestamp_edge_cases() {
    assert_eq!(parse_log_timestamp(""), 0);
    assert_eq!(parse_log_timestamp("2026-05-07T07:41:48.151Z"), 0);
    assert_eq!(parse_log_timestamp(" 2026-05-07T07:41:48.151Z x"), 0);
    assert_eq!(
        parse_log_timestamp("2026-05-07T09:41:48.151+02:00 x"),
        1_778_139_708_151
    );
    // Before the epoch the number wraps around.
    assert_eq!(
        parse_log_timestamp("1969-12-31T23:59:59Z x"),
        (-1000i64) as u64
    );
    assert_eq!(stamp_of(Some(-1)), u64::MAX);
    assert_eq!(stamp_of(Some(5)), 5);
    assert_eq!(stamp_of(None), 0);
}

#[test]
fn strip_log_prefix_extracts_message() {
    let line = "2026-05-07T07:41:48.191Z [INFO] Starting Copilot CLI: 1.0.43";
    assert_eq!(
        strip_log_prefix("2026-05-07T07:41:48.191Z [INFO] Starting Copilot CLI: 1.0.43"),
        "Starting Copilot CLI: 1.0.43"
    );
    let _ = line;
}

#[test]
fn strip_log_prefix_edge_cases() {
    assert_eq!(strip_log_prefix(""), "");
    assert_eq!(strip_log_prefix("word"), "word");
    assert_eq!(strip_log_prefix("a b c"), "b c");
    assert_eq!(strip_log_prefix("a [b c"), "[b c");
    assert_eq!(strip_log_prefix("a [b] [c] d"), "[c] d");
    assert_eq!(strip_log_prefix("[é] ö"), "ö");
}

#[test]
fn parse_compaction_line_extracts_values() {
    let mut result = LogResult::default();
    parse_compaction_line(
        "22.3% (28516/128000 tokens) below threshold 80%",
        &mut result,
    );
    let context_pct: f64 = result.context_pct.parse().unwrap();
    assert!((context_pct - 22.3).abs() < 0.01);
    assert_eq!(result.context_tokens, 28516);
    assert_eq!(result.context_window, 128000);
}

#[test]
fn parse_compaction_line_keeps_what_it_cannot_read() {
    let mut result = LogResult::default();
    parse_compaction_line("10% (1/2)", &mut result);
    parse_compaction_line("ten% (1/2/3 tokens)", &mut result);
    parse_compaction_line("no percentage (x/4)", &mut result);
    parse_compaction_line("( 5", &mut result);
    parse_compaction_line("(5/18446744073709551616)", &mut result);
    assert_eq!(result.context_pct, "10");
    assert_eq!(result.context_tokens, 1);
    assert_eq!(result.context_window, 2);
    parse_compaction_line(" +1.5e1 % ( +7 / 18446744073709551615 t)", &mut result);
    assert_eq!(result.context_pct, "+1.5e1");
    assert_eq!(result.context_tokens, 7);
    assert_eq!(result.context_window, u64::MAX);
}

#[test]
fn parse_log_line_session_id() {
    let mut result = LogResult::default();
    parse_log_line(
        "2026-05-07T07:41:48.190Z [INFO] Workspace initialized: e840638a-9964-44a8-b41e-4ca8afe82103 (checkpoints: 0)",
        &mut result,
    );
    assert_eq!(result.session_id, "e840638a-9964-44a8-b41e-4ca8afe82103");
}

#[test]
fn the_first_session_stays() {
    let mut result = LogResult::default();
    parse_log_line("t [INFO] Workspace initialized: none", &mut result);
    assert_eq!(result.session_id, "");
    parse_log_line(
        "t [INFO] Workspace initialized: e840638a-9964-44a8-b41e-4ca8afe82103",
        &mut result,
    );
    parse_log_line(
        "t [INFO] Workspace initialized: 00000000-0000-0000-0000-000000000000",
        &mut result,
    );
    assert_eq!(result.session_id, "e840638a-9964-44a8-b41e-4ca8afe82103");
}

#[test]
fn parse_log_line_session_name() {
    let mut result = LogResult::default();
    parse_log_line(
        r#"2026-05-07T07:42:18.879Z [INFO] Session named: "Add GitHub Copilot CLI Support""#,
        &mut result,
    );
    assert_eq!(result.session_name, "Add GitHub Copilot CLI Support");
}

#[test]
fn parse_log_line_repository() {
    let mut result = LogResult::default();
    parse_log_line(
        "2026-05-07T07:41:48.168Z [INFO] Session indexing debug: SESSION_INDEXING=false, repository=lifejwang11/abtop, savedIndexingLevel=undefined",
        &mut result,
    );
    assert_eq!(result.repository, "lifejwang11/abtop");
}

#[test]
fn an_undefined_repository_is_none() {
    let mut result = LogResult::default();
    parse_log_line("t [I] Session indexing debug: repository=a/b", &mut result);
    parse_log_line(
        "t [I] Session indexing debug: repository=undefined, x",
        &mut result,
    );
    parse_log_line("t [I] Session indexing debug: repository= , x", &mut result);
    parse_log_line("t [I] Session indexing debug: nothing", &mut result);
    assert_eq!(result.repository, "a/b");
}

#[test]
fn parse_log_line_turn_count() {
    let mut result = LogResult::default();
    parse_log_line(
        "2026-05-07T07:42:16.581Z [INFO] --- Start of group: Sending request to the AI model ---",
        &mut result,
    );
    assert_eq!(result.turn_count, 1);
    assert!(result.model_generating);
    assert_eq!(result.thinking_since_ms, 1_778_139_736_581);
    parse_log_line(
        "2026-05-07T07:42:18.868Z [INFO] --- End of group ---",
        &mut result,
    );
    assert!(!result.model_generating);
}

#[test]
fn parse_log_line_version_and_stamps() {
    let mut result = LogResult::default();
    parse_log_line("2026-05-07T07:41:48.151Z [INFO] Starting Copilot CLI:  1.0.43 ", &mut result);
    parse_log_line("no stamp here", &mut result);
    parse_log_line("2026-05-07T07:42:16.581Z [INFO] hello", &mut result);
    assert_eq!(result.version, "1.0.43");
    assert_eq!(result.started_at_ms, 1_778_139_708_151);
    assert_eq!(result.last_event_ms, 1_778_139_736_581);
    apply_log_line("x [I] y", 9, &mut result);
    assert_eq!(result.last_event_ms, 9);
    assert_eq!(result.started_at_ms, 1_778_139_708_151);
}

#[test]
fn lines_that_cannot_be_taken_are_refused() {
    let mut result = LogResult::default();
    let report = "t [I] CompactionProcessor: Utilization 5% ) (";
    assert!(!can_take_line(report, &result));
    assert!(!checked_parse_log_line(report, &mut result));
    assert_eq!(result.context_pct, "");
    result.turn_count = u32::MAX;
    let request = "t [I] --- Start of group: Sending request to the AI model ---";
    assert!(!checked_parse_log_line(request, &mut result));
    assert!(!result.model_generating);
    assert!(checked_parse_log_line("t [I] --- End of group ---", &mut result));
}

#[test]
fn update_log_cache_reads_on() {
    let mut cache: LogCache = unread_cache(b"process-1-2.log".to_vec());
    let first = "2026-05-07T07:41:48.151Z [INFO] Starting Copilot CLI: 1.0.43\n2026-05-07T07:42:16.581Z [INFO] Session na";
    assert!(update_log_cache(&mut cache, Some(first.as_bytes())));
    assert_eq!(cache.result.version, "1.0.43");
    assert_eq!(cache.result.session_name, "");
    assert_eq!(cache.partial, "2026-05-07T07:42:16.581Z [INFO] Session na");
    let second = format!("{first}med: \"Ü\"\r\nmore");
    assert!(update_log_cache(&mut cache, Some(second.as_bytes())));
    assert_eq!(cache.result.session_name, "Ü");
    assert_eq!(cache.partial, "more");
    assert!(update_log_cache(&mut cache, None));
    assert_eq!(cache.partial, "more");
}
