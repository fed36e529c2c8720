use copilot_sessions::collector::CopilotCollector;
use copilot_sessions::discovery::ProcInfo;
use copilot_sessions::host::{cwd_from_lsof, git_branch_arguments, git_branch_from};
use copilot_sessions::paths::{abbrev_path, join, last_path_segment};
use copilot_sessions::processes::{child_processes, descendants, SharedProcessData};
use copilot_sessions::session::{
    session_status, tasks_for_status, Observation, SessionStatus,
};
use copilot_sessions::log::LogResult;
use std::collections::HashMap;

const ID: &str = "e840638a-9964-44a8-b41e-4ca8afe82103";

#[test]
fn config_root_is_copilot_home() {
    let c = CopilotCollector::new();
    assert!(c.config_root().ends_with("/.copilot"));
    assert!(c.config_root().starts_with('~'));
}

#[test]
fn paths_hang_below_the_home_directory() {
    let c = CopilotCollector::with_home(b"/home/u".to_vec());
    assert_eq!(c.logs_dir(), b"/home/u/.copilot/logs");
    assert_eq!(c.settings_path(), b"/home/u/.copilot/settings.json");
    assert_eq!(c.config_root(), "~/.copilot");
    let root = CopilotCollector::with_home(b"/".to_vec());
    assert_eq!(root.logs_dir(), b"/.copilot/logs");
    assert_eq!(root.config_root(), "~/.copilot");
    let none = CopilotCollector::with_home(Vec::new());
    assert_eq!(none.logs_dir(), b".copilot/logs");
    assert_eq!(none.config_root(), ".copilot");
}

#[test]
fn tasks_for_status_covers_every_variant() {
    assert_eq!(
        tasks_for_status(&SessionStatus::Thinking),
        vec!["thinking...".to_string()]
    );
    assert_eq!(
        tasks_for_status(&SessionStatus::Executing),
        vec!["executing...".to_string()]
    );
    assert_eq!(
        tasks_for_status(&SessionStatus::Waiting),
        vec!["waiting for input".to_string()]
    );
    assert_eq!(
        tasks_for_status(&SessionStatus::Done),
        vec!["finished".to_string()]
    );
    assert_eq!(
        tasks_for_status(&SessionStatus::RateLimited),
        vec!["rate limited".to_string()]
    );
    assert!(tasks_for_status(&SessionStatus::Unknown).is_empty());
}

#[test]
fn status_follows_process_log_and_children() {
    let mut log = LogResult::default();
    assert_eq!(session_status(false, &log, 0, true), SessionStatus::Done);
    // No entry at all counts as old.
    assert_eq!(session_status(true, &log, 5, true), SessionStatus::Waiting);
    log.last_event_ms = 1_000;
    assert_eq!(
        session_status(true, &log, 30_999, true),
        SessionStatus::Executing
    );
    assert_eq!(
        session_status(true, &log, 31_000, true),
        SessionStatus::Waiting
    );
    assert_eq!(
        session_status(true, &log, 30_999, false),
        SessionStatus::Waiting
    );
    // A log from the future is recent.
    assert_eq!(
        session_status(true, &log, 5, true),
        SessionStatus::Executing
    );
    log.model_generating = true;
    assert_eq!(
        session_status(true, &log, 99_999_999, false),
        SessionStatus::Thinking
    );
    assert_eq!(session_status(false, &log, 0, false), SessionStatus::Done);
}

fn processes() -> SharedProcessData {
    let mut shared = SharedProcessData {
        process_info: HashMap::new(),
        children_map: HashMap::new(),
        ports: HashMap::new(),
        slow_tick: false,
    };
    for (pid, rss_kb) in [(1, 4096), (2, 20), (3, 30), (4, 40), (9, 2047)] {
        shared.process_info.insert(
            pid,
            ProcInfo {
                command: format!("cmd {pid}"),
                rss_kb,
            },
        );
    }
    shared.children_map.insert(1, vec![2, 3]);
    shared.children_map.insert(3, vec![4, 5]);
    shared.children_map.insert(5, vec![3, 2]);
    shared.ports.insert(2, vec![8080, 80]);
    shared.ports.insert(4, vec![]);
    shared
}

#[test]
fn descendants_are_met_once_and_last_child_first() {
    let shared = processes();
    assert_eq!(descendants(1, &shared.children_map), vec![3, 5, 2, 4]);
    assert!(descendants(2, &shared.children_map).is_empty());
    // A process in a circle is below itself.
    assert_eq!(descendants(3, &shared.children_map), vec![5, 2, 3, 4]);
}

#[test]
fn child_processes_leaves_out_what_is_gone() {
    let shared = processes();
    let children = child_processes(1, &shared);
    let pids: Vec<u32> = children.iter().map(|c| c.pid).collect();
    assert_eq!(pids, vec![3, 2, 4]);
    assert_eq!(children[0].command, "cmd 3");
    assert_eq!(children[0].mem_kb, 30);
    assert_eq!(children[0].port, None);
    assert_eq!(children[1].port, Some(8080));
    assert_eq!(children[2].port, None);
}

fn seen(pid: u32) -> Observation {
    Observation {
        pid,
        cwd: Some(format!("/work/p{pid}/")),
        git_branch: "main".to_string(),
        now_ms: 1_778_139_709_000,
        has_active_child: true,
    }
}

fn feed_log(c: &mut CopilotCollector, pid: u32, path: &str, content: &str) {
    let n = content.len() as u64;
    if let Some(from) = c.begin_log(pid, path.as_bytes(), Some(n)) {
        assert!(c.finish_log(pid, &content.as_bytes()[from as usize..]));
    }
}

fn feed_events(c: &mut CopilotCollector, pid: u32, content: &str) {
    let n = content.len() as u64;
    if let Some(from) = c.begin_events(pid, Some(n)) {
        assert!(c.finish_events(pid, &content.as_bytes()[from as usize..]));
    }
}

fn log_text(stamp: &str) -> String {
    format!("{stamp} [INFO] Starting Copilot CLI: 1.0.43\n{stamp} [INFO] Workspace initialized: {ID} (checkpoints: 0)\n")
}

#[test]
fn a_session_is_put_together() {
    let shared = processes();
    let mut c = CopilotCollector::with_home(b"/home/u".to_vec());
    assert!(c.needs_settings(false));
    c.refresh_settings(false, Some(r#"{"model":"gpt-5.5","effortLevel":"low"}"#));
    assert!(!c.needs_settings(false));
    assert!(c.needs_settings(true));

    assert_eq!(c.events_path(1), None);
    assert_eq!(c.begin_events(1, Some(10)), None);
    feed_log(&mut c, 1, "/l/process-1-1.log", &log_text("2026-05-07T07:41:48.151Z"));
    assert_eq!(
        c.events_path(1),
        Some(format!("/home/u/.copilot/session-state/{ID}/events.jsonl").into_bytes())
    );
    feed_events(
        &mut c,
        1,
        "{\"type\":\"assistant.turn_start\"}\n{\"type\":\"assistant.message\",\"data\":{\"model\":\"opus\",\"outputTokens\":12}}\n{\"type\":\"session.compaction_start\",\"data\":{\"currentTokens\":50,\"tokenLimit\":200}}\n",
    );
    let sessions = c.collect_sessions(&shared, &vec![seen(1)]);
    assert_eq!(sessions.len(), 1);
    let s = &sessions[0];
    assert_eq!(s.agent_cli, "copilot");
    assert_eq!(s.pid, 1);
    assert_eq!(s.session_id, ID);
    assert_eq!(s.cwd, "/work/p1/");
    assert_eq!(s.project_name, "p1");
    assert_eq!(s.started_at, 1_778_139_708_151);
    assert_eq!(s.status, SessionStatus::Executing);
    assert_eq!(s.current_tasks, vec!["executing...".to_string()]);
    assert_eq!(s.model, "opus");
    assert_eq!(s.effort, "low");
    assert_eq!(s.context_share, Some((50, 200)));
    assert_eq!(s.total_input_tokens, 50);
    assert_eq!(s.context_window, 200);
    assert_eq!(s.total_output_tokens, 12);
    assert_eq!(s.token_history, vec![12]);
    assert_eq!(s.turn_count, 1);
    assert_eq!(s.mem_mb, 4);
    assert_eq!(s.version, "1.0.43");
    assert_eq!(s.git_branch, "main");
    assert_eq!(s.initial_prompt, "p1");
    assert_eq!(s.config_root, "~/.copilot");
    assert_eq!(s.children.len(), 3);
    assert_eq!(s.total_cache_read + s.total_cache_create, 0);
}

#[test]
fn fallbacks_are_used_where_nothing_is_known() {
    let shared = processes();
    let mut c = CopilotCollector::with_home(Vec::new());
    c.refresh_settings(true, None);
    let log = format!(
        "{}t [I] Session indexing debug: repository=a/b\n",
        log_text("2026-05-07T07:41:48.151Z")
    );
    feed_log(&mut c, 7, "p", &log);
    let mut observation = seen(7);
    observation.cwd = None;
    let sessions = c.collect_sessions(&shared, &vec![observation]);
    let s = &sessions[0];
    assert_eq!(s.status, SessionStatus::Done);
    assert_eq!(s.mem_mb, 0);
    assert_eq!(s.cwd, "");
    assert_eq!(s.project_name, "?");
    assert_eq!(s.initial_prompt, "a/b");
    assert_eq!(s.model, "");
    assert_eq!(s.context_share, None);
    assert_eq!(s.context_window, 200_000);
    assert_eq!(s.turn_count, 0);
    assert!(s.children.is_empty());
}

#[test]
fn sessions_come_newest_first_and_stale_ones_are_dropped() {
    let shared = processes();
    let mut c = CopilotCollector::with_home(b"/h".to_vec());
    let stamps = [
        (2, "2026-05-07T07:41:48.000Z"),
        (3, "2026-05-07T07:41:50.000Z"),
        (4, "2026-05-07T07:41:48.000Z"),
    ];
    for (pid, stamp) in stamps {
        feed_log(&mut c, pid, "p", &log_text(stamp));
        feed_events(&mut c, pid, "{\"type\":\"assistant.turn_start\"}\n");
    }
    // Process 9 has a log that names no session.
    feed_log(&mut c, 9, "p", "t [I] hello\n");
    let sessions = c.collect_sessions(&shared, &vec![seen(2), seen(9), seen(3), seen(4)]);
    let pids: Vec<u32> = sessions.iter().map(|s| s.pid).collect();
    assert_eq!(pids, vec![3, 2, 4]);

    let sessions = c.collect_sessions(&shared, &vec![seen(2)]);
    assert_eq!(sessions.len(), 1);
    assert_eq!(sessions[0].turn_count, 1);
    assert!(c.events_path(2).is_some());
    assert_eq!(c.events_path(3), None);
    assert!(c.collect_sessions(&shared, &vec![seen(3), seen(4)]).is_empty());
}

#[test]
fn another_file_is_read_from_its_start() {
    let mut c = CopilotCollector::with_home(b"/h".to_vec());
    let text = log_text("2026-05-07T07:41:48.000Z");
    feed_log(&mut c, 1, "a", &text);
    let n = text.len() as u64;
    assert_eq!(c.begin_log(1, b"a", Some(n)), None);
    assert_eq!(c.begin_log(1, b"a", Some(n + 5)), Some(n));
    assert_eq!(c.begin_log(1, b"a", None), None);
    assert!(c.events_path(1).is_some());
    assert_eq!(c.begin_log(1, b"b", Some(n)), Some(0));
    assert_eq!(c.events_path(1), None);
    assert_eq!(c.begin_log(1, b"b", Some(0)), None);
    // Bytes of a file that is not followed are not taken.
    assert!(c.finish_log(77, b"x\n"));
    assert!(c.finish_events(77, b"x\n"));
    assert_eq!(c.events_path(77), None);
}

#[test]
fn settings_replace_cached_ones_on_slow_ticks_only() {
    let shared = processes();
    let mut c = CopilotCollector::default();
    feed_log(&mut c, 1, "p", &log_text("2026-05-07T07:41:48.000Z"));
    c.refresh_settings(false, Some(r#"{"model":"a"}"#));
    c.refresh_settings(false, Some(r#"{"model":"b","effortLevel":"x"}"#));
    let s = c.collect_sessions(&shared, &vec![seen(1)]);
    assert_eq!(s[0].model, "a");
    assert_eq!(s[0].effort, "x");
    c.refresh_settings(true, Some(r#"{"model":"b"}"#));
    let s = c.collect_sessions(&shared, &vec![seen(1)]);
    assert_eq!(s[0].model, "b");
    assert_eq!(s[0].effort, "");
}

#[test]
fn directories_and_branches_are_read_from_tools() {
    assert_eq!(
        cwd_from_lsof(b"p12\nfcwd\nnrelative\nn/home/u\nn/other\n"),
        Some("/home/u".to_string())
    );
    assert_eq!(cwd_from_lsof(b"p12\nn\n"), None);
    assert_eq!(cwd_from_lsof(b"n/a\xffb"), Some("/a\u{FFFD}b".to_string()));
    assert_eq!(
        git_branch_arguments("/d"),
        Some(
            ["-C", "/d", "rev-parse", "--abbrev-ref", "HEAD"]
                .iter()
                .map(|s| s.to_string())
                .collect()
        )
    );
    assert_eq!(git_branch_arguments(""), None);
    assert_eq!(git_branch_from(true, b" main\n"), "main");
    assert_eq!(git_branch_from(false, b"main\n"), "");
}

#[test]
fn paths_are_joined_cut_and_abbreviated() {
    assert_eq!(join(b"/a", "b"), b"/a/b");
    assert_eq!(join(b"/", "b"), b"/b");
    assert_eq!(join(b"", "b"), b"b");
    assert_eq!(abbrev_path(b"/home/user/x", b"/home/u"), "/home/user/x");
    assert_eq!(abbrev_path(b"/home/u/x", b"/home/u"), "~/x");
    assert_eq!(abbrev_path(b"/x", b""), "/x");
    assert_eq!(last_path_segment("/a/b//"), Some("b".to_string()));
    assert_eq!(last_path_segment("b"), Some("b".to_string()));
    assert_eq!(last_path_segment("/"), None);
    assert_eq!(last_path_segment(""), None);
}

#[test]
fn a_process_that_comes_back_is_read_from_the_start() {
    let shared = processes();
    let mut c = CopilotCollector::with_home(b"/h".to_vec());
    let text = log_text("2026-05-07T07:41:48.000Z");
    let n = text.len() as u64;
    feed_log(&mut c, 1, "p", &text);
    feed_log(&mut c, 2, "p", &text);
    c.collect_sessions(&shared, &vec![seen(2)]);
    assert_eq!(c.begin_log(2, b"p", Some(n)), None);
    assert_eq!(c.begin_log(1, b"p", Some(n)), Some(0));
}

#[test]
fn lines_that_cannot_be_taken_are_reported() {
    let mut c = CopilotCollector::with_home(b"/h".to_vec());
    let text = "t [I] Starting Copilot CLI: 2\nt [I] CompactionProcessor: Utilization ) (\n";
    let n = text.len() as u64;
    assert_eq!(c.begin_log(1, b"p", Some(n)), Some(0));
    assert!(!c.finish_log(1, text.as_bytes()));
    assert_eq!(c.begin_log(1, b"p", Some(n)), None);
}

#[test]
fn a_home_directory_need_not_be_text() {
    let home = b"/home/\xff".to_vec();
    let mut c = CopilotCollector::with_home_dir(Some(home));
    assert_eq!(c.logs_dir(), b"/home/\xff/.copilot/logs");
    assert_eq!(c.settings_path(), b"/home/\xff/.copilot/settings.json");
    assert_eq!(c.config_root(), "~/.copilot");
    feed_log(&mut c, 1, "p", &log_text("2026-05-07T07:41:48.000Z"));
    let mut expected = b"/home/\xff/.copilot/session-state/".to_vec();
    expected.extend_from_slice(ID.as_bytes());
    expected.extend_from_slice(b"/events.jsonl");
    assert_eq!(c.events_path(1), Some(expected));
    assert_eq!(abbrev_path(b"/x/\xff", b"/home"), "/x/\u{FFFD}");
}

#[test]
fn without_a_home_directory_paths_are_relative() {
    let c = CopilotCollector::with_home_dir(None);
    assert_eq!(c.logs_dir(), b".copilot/logs");
    assert_eq!(c.config_root(), ".copilot");
}

#[test]
fn without_a_directory_of_logs_nothing_changes() {
    let shared = processes();
    let mut c = CopilotCollector::with_home(b"/h".to_vec());
    let text = log_text("2026-05-07T07:41:48.000Z");
    let n = text.len() as u64;
    feed_log(&mut c, 1, "p", &text);
    assert!(c.collect_from_logs(false, &shared, &vec![seen(1)]).is_empty());
    assert!(c.collect_from_logs(false, &shared, &vec![]).is_empty());
    assert_eq!(c.begin_log(1, b"p", Some(n)), None);
    assert_eq!(c.collect_from_logs(true, &shared, &vec![seen(1)]).len(), 1);
    assert!(c.collect_from_logs(true, &shared, &vec![]).is_empty());
    assert_eq!(c.begin_log(1, b"p", Some(n)), Some(0));
}

#[test]
fn a_look_keeps_what_was_seen() {
    let shared = processes();
    let mut c = CopilotCollector::with_home(b"/h".to_vec());
    let text = log_text("2026-05-07T07:41:48.000Z");
    let n = text.len() as u64;
    for pid in [1, 2, 3] {
        feed_log(&mut c, pid, "p", &text);
        feed_events(&mut c, pid, "{\"type\":\"assistant.turn_start\"}\n");
    }
    c.collect_sessions(&shared, &vec![seen(1), seen(3)]);
    assert_eq!(c.begin_log(1, b"p", Some(n)), None);
    assert_eq!(c.begin_log(3, b"p", Some(n)), None);
    assert_eq!(c.begin_log(2, b"p", Some(n)), Some(0));
    assert_eq!(c.begin_events(2, Some(5)), None);
}

#[test]
fn a_log_that_grows_while_it_is_read_is_read_once() {
    let mut c = CopilotCollector::with_home(b"/h".to_vec());
    let request = "t [I] --- Start of group: Sending request to the AI model ---\n";
    let text = format!("{}{request}", log_text("2026-05-07T07:41:48.000Z"));
    // The length is taken before the last line is there, the bytes after.
    let early = (text.len() - request.len()) as u64;
    assert_eq!(c.begin_log(1, b"p", Some(early)), Some(0));
    assert!(c.finish_log(1, text.as_bytes()));
    assert_eq!(c.begin_log(1, b"p", Some(text.len() as u64)), None);
    let sessions = c.collect_sessions(&processes(), &vec![seen(1)]);
    assert_eq!(sessions[0].turn_count, 1);
}
