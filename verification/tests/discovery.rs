use copilot_sessions::discovery::{
    find_copilot_pids, is_copilot_cli, map_pid_to_log, pid_of_log_file, LogEntry, ProcInfo,
};
use std::collections::HashMap;

#[test]
fn is_copilot_cli_matches_cask_path() {
    assert!(is_copilot_cli(
        "/opt/homebrew/Caskroom/copilot-cli/1.0.26/copilot"
    ));
    assert!(is_copilot_cli(
        "/opt/homebrew/Caskroom/copilot-cli/1.0.43/copilot --flag"
    ));
}

#[test]
fn is_copilot_cli_matches_bare_command() {
    assert!(is_copilot_cli("copilot"));
    assert!(is_copilot_cli("copilot --arg"));
}

#[test]
fn is_copilot_cli_excludes_language_server() {
    assert!(!is_copilot_cli("/path/copilot-language-server --stdio"));
    // language server check happens in find_copilot_pids, not is_copilot_cli
    // is_copilot_cli itself doesn't see "language-server" in this path
    // but the copilot-language-server binary name contains a dash so it won't match
    assert!(!is_copilot_cli("copilot-language-server"));
}

#[test]
fn is_copilot_cli_excludes_unrelated() {
    assert!(!is_copilot_cli("node"));
    assert!(!is_copilot_cli("codex"));
    assert!(!is_copilot_cli("/usr/bin/git"));
}

#[test]
fn is_copilot_cli_edge_cases() {
    assert!(!is_copilot_cli(""));
    assert!(!is_copilot_cli("   "));
    assert!(is_copilot_cli("\u{2003}\tcopilot\u{a0}x"));
    assert!(!is_copilot_cli("/usr/bin/copilot"));
    assert!(!is_copilot_cli("copilot-cli"));
    assert!(!is_copilot_cli("/copilot-cli/copilot/"));
    assert!(!is_copilot_cli("C:\\copilot"));
    assert!(!is_copilot_cli("node copilot"));
}

#[test]
fn find_copilot_pids_leaves_out_editor_helpers() {
    let mut processes: HashMap<u32, ProcInfo> = HashMap::new();
    for (pid, command) in [
        (1, "copilot"),
        (2, "copilot --plugin copilot-agent"),
        (3, "copilot copilot-language-server"),
        (4, "copilot copilot-intellij"),
        (5, "bash"),
        (6, "/x/copilot-cli/copilot -v"),
    ] {
        processes.insert(
            pid,
            ProcInfo {
                command: command.to_string(),
                rss_kb: 0,
            },
        );
    }
    let mut pids = find_copilot_pids(&processes);
    pids.sort();
    assert_eq!(pids, vec![1, 6]);
    assert!(find_copilot_pids(&HashMap::new()).is_empty());
}

fn entry(name: &str, modified: i128) -> LogEntry {
    LogEntry {
        name: Some(name.to_string()),
        path: format!("/logs/{name}").into_bytes(),
        is_symlink: false,
        modified,
    }
}

#[test]
fn map_pid_to_log_empty_dir() {
    let result = map_pid_to_log(&[12345], &[]);
    assert!(result.is_empty());
}

#[test]
fn map_pid_to_log_matches_pid() {
    let log_path = b"/logs/process-1778139708150-12345.log".to_vec();
    let result = map_pid_to_log(&[12345], &[entry("process-1778139708150-12345.log", 0)]);
    assert_eq!(result.get(&12345), Some(&log_path));
}

#[test]
fn map_pid_to_log_ignores_wrong_pid() {
    let result = map_pid_to_log(&[12345], &[entry("process-1778139708150-99999.log", 0)]);
    assert!(result.is_empty());
}

#[test]
fn map_pid_to_log_keeps_the_newest() {
    let mut link = entry("process-9-7.log", 100);
    link.is_symlink = true;
    let mut unnamed = entry("process-8-7.log", 100);
    unnamed.name = None;
    let entries = [
        entry("process-1-7.log", -5),
        entry("process-2-7.log", 3),
        entry("process-3-7.log", 3),
        entry("process-4-7.log", 1),
        link,
        unnamed,
        entry("process-5-8.log", 0),
    ];
    let result = map_pid_to_log(&[7, 8, 9, 7], &entries);
    assert_eq!(result.len(), 2);
    assert_eq!(result[&7], b"/logs/process-2-7.log");
    assert_eq!(result[&8], b"/logs/process-5-8.log");
    assert!(map_pid_to_log(&[], &entries).is_empty());
}

#[test]
fn pid_of_log_file_reads_the_last_part() {
    assert_eq!(pid_of_log_file("process-1-2-3.log"), Some(3));
    assert_eq!(pid_of_log_file("process-1-+3.log"), Some(3));
    assert_eq!(pid_of_log_file("process-1-4294967295.log"), Some(u32::MAX));
    assert_eq!(pid_of_log_file("process-1-4294967296.log"), None);
    assert_eq!(pid_of_log_file("process-1-.log"), None);
    assert_eq!(pid_of_log_file("process-.log"), None);
    assert_eq!(pid_of_log_file("process-1.log"), None);
    assert_eq!(pid_of_log_file("process-1-2.txt"), None);
    assert_eq!(pid_of_log_file("xprocess-1-2.log"), None);
    assert_eq!(pid_of_log_file(".log"), None);
    assert_eq!(pid_of_log_file(""), None);
}
