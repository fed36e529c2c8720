//! A session, put together from what is known of it.
use crate::events::{EventsResult, EventsSummary};
use crate::log::{LogResult, LogSummary};
use crate::paths::{last_path_segment, last_segment};
use crate::processes::{
    below, child_processes, child_views, known_children, Child, ChildProcess, SharedProcessData,
};
use crate::resolve::{
    first_number, first_text, resolved_context_tokens, resolved_context_window, resolved_effort,
    resolved_model, resolved_turn_count, window,
};
use crate::text::{contains_text, texts};
use vstd::prelude::*;

verus! {

broadcast use vstd::std_specs::hash::group_hash_axioms;

/// What a session is doing.
#[derive(Clone, Copy, Debug, PartialEq, Eq, Structural)]
pub enum SessionStatus {
    Thinking,
    Executing,
    Waiting,
    Done,
    RateLimited,
    Unknown,
}

/// What a session with this status is described as doing.
pub open spec fn task_texts(status: SessionStatus) -> Seq<Seq<char>> {
    match status {
        SessionStatus::Thinking => seq!["thinking..."@],
        SessionStatus::Executing => seq!["executing..."@],
        SessionStatus::Waiting => seq!["waiting for input"@],
        SessionStatus::Done => seq!["finished"@],
        SessionStatus::RateLimited => seq!["rate limited"@],
        SessionStatus::Unknown => seq![],
    }
}

/// A list of one text.
fn one(text: &str) -> (r: Vec<String>)
    ensures
        texts(r@) == seq![text@],
{
    let mut list: Vec<String> = Vec::new();
    list.push(text.to_owned());
    assert(texts(list@) =~= seq![text@]);
    list
}

/// What a session with this status is described as doing.
pub fn tasks_for_status(status: &SessionStatus) -> (r: Vec<String>)
    ensures
        texts(r@) == task_texts(*status),
        *status == SessionStatus::Thinking ==> texts(r@) == seq!["thinking..."@],
        *status == SessionStatus::Executing ==> texts(r@) == seq!["executing..."@],
        *status == SessionStatus::Waiting ==> texts(r@) == seq!["waiting for input"@],
        *status == SessionStatus::Done ==> texts(r@) == seq!["finished"@],
        *status == SessionStatus::RateLimited ==> texts(r@) == seq!["rate limited"@],
        *status == SessionStatus::Unknown ==> r@.len() == 0,
{
    match status {
        SessionStatus::Thinking => one("thinking..."),
        SessionStatus::Executing => one("executing..."),
        SessionStatus::Waiting => one("waiting for input"),
        SessionStatus::Done => one("finished"),
        SessionStatus::RateLimited => one("rate limited"),
        SessionStatus::Unknown => {
            let none: Vec<String> = Vec::new();
            assert(texts(none@) =~= seq![]);
            none
        },
    }
}

/// How long ago the last log entry was, in seconds; 9999 where there is none.
pub open spec fn log_age_secs(last_event_ms: u64, now_ms: u64) -> int {
    if last_event_ms == 0 {
        9999
    } else if now_ms < last_event_ms {
        0
    } else {
        (now_ms - last_event_ms) / 1000
    }
}

/// What a session is doing. One whose process is gone is done; one with a request under way
/// thinks; one that logged something in the last 30 seconds and has a busy child executes; any
/// other waits.
pub open spec fn status_of(
    alive: bool,
    log: LogSummary,
    now_ms: u64,
    has_active_child: bool,
) -> SessionStatus {
    if !alive {
        SessionStatus::Done
    } else if log.model_generating {
        SessionStatus::Thinking
    } else if log_age_secs(log.last_event_ms, now_ms) < 30 && has_active_child {
        SessionStatus::Executing
    } else {
        SessionStatus::Waiting
    }
}

/// What a session is doing.
pub fn session_status(
    alive: bool,
    log: &LogResult,
    now_ms: u64,
    has_active_child: bool,
) -> (r: SessionStatus)
    ensures
        r == status_of(alive, log@, now_ms, has_active_child),
        !alive ==> r == SessionStatus::Done,
        alive && log.model_generating ==> r == SessionStatus::Thinking,
        alive && !log.model_generating && log.last_event_ms > 0 && now_ms < log.last_event_ms
            + 30_000 && has_active_child ==> r == SessionStatus::Executing,
        alive && !log.model_generating && (log.last_event_ms == 0 || now_ms >= log.last_event_ms
            + 30_000 || !has_active_child) ==> r == SessionStatus::Waiting,
{
    let age: u64 = if log.last_event_ms > 0 {
        now_ms.saturating_sub(log.last_event_ms) / 1000
    } else {
        9999
    };
    if !alive {
        SessionStatus::Done
    } else if log.model_generating {
        SessionStatus::Thinking
    } else if age < 30 && has_active_child {
        SessionStatus::Executing
    } else {
        SessionStatus::Waiting
    }
}

/// What was seen of a session from outside.
pub struct Observation {
    /// The process.
    pub pid: u32,
    /// Its working directory, where that is known.
    pub cwd: Option<String>,
    /// The git branch of the directory; empty where there is none.
    pub git_branch: String,
    /// The time, in milliseconds since the Unix epoch.
    pub now_ms: u64,
    /// A process below it is busy.
    pub has_active_child: bool,
}

/// A session.
pub struct AgentSession {
    pub agent_cli: &'static str,
    pub pid: u32,
    pub session_id: String,
    pub cwd: String,
    pub project_name: String,
    pub started_at: u64,
    pub status: SessionStatus,
    pub model: String,
    pub effort: String,
    /// The tokens in the context and the size of its window, of which the first is a share of the
    /// second; `None` where one of them is 0.
    pub context_share: Option<(u64, u64)>,
    pub total_input_tokens: u64,
    pub total_output_tokens: u64,
    pub total_cache_read: u64,
    pub total_cache_create: u64,
    pub turn_count: u32,
    pub current_tasks: Vec<String>,
    pub mem_mb: u64,
    pub version: String,
    pub git_branch: String,
    pub git_added: u32,
    pub git_modified: u32,
    pub token_history: Vec<u64>,
    pub compaction_count: u32,
    pub context_window: u64,
    pub mem_file_count: u32,
    pub mem_line_count: u32,
    pub children: Vec<ChildProcess>,
    pub initial_prompt: String,
    pub first_assistant_text: String,
    pub pending_since_ms: u64,
    pub thinking_since_ms: u64,
    pub config_root: String,
}

/// The mathematical view of an `AgentSession`.
pub struct Session {
    pub agent_cli: Seq<char>,
    pub pid: u32,
    pub session_id: Seq<char>,
    pub cwd: Seq<char>,
    pub project_name: Seq<char>,
    pub started_at: u64,
    pub status: SessionStatus,
    pub model: Seq<char>,
    pub effort: Seq<char>,
    pub context_share: Option<(u64, u64)>,
    pub total_input_tokens: u64,
    pub total_output_tokens: nat,
    pub total_cache_read: u64,
    pub total_cache_create: u64,
    pub turn_count: nat,
    pub current_tasks: Seq<Seq<char>>,
    pub mem_mb: u64,
    pub version: Seq<char>,
    pub git_branch: Seq<char>,
    pub git_added: u32,
    pub git_modified: u32,
    pub token_history: Seq<u64>,
    pub compaction_count: u32,
    pub context_window: u64,
    pub mem_file_count: u32,
    pub mem_line_count: u32,
    pub children: Seq<Child>,
    pub initial_prompt: Seq<char>,
    pub first_assistant_text: Seq<char>,
    pub pending_since_ms: u64,
    pub thinking_since_ms: u64,
    pub config_root: Seq<char>,
}

impl View for AgentSession {
    type V = Session;

    open spec fn view(&self) -> Session {
        Session {
            agent_cli: self.agent_cli@,
            pid: self.pid,
            session_id: self.session_id@,
            cwd: self.cwd@,
            project_name: self.project_name@,
            started_at: self.started_at,
            status: self.status,
            model: self.model@,
            effort: self.effort@,
            context_share: self.context_share,
            total_input_tokens: self.total_input_tokens,
            total_output_tokens: self.total_output_tokens as nat,
            total_cache_read: self.total_cache_read,
            total_cache_create: self.total_cache_create,
            turn_count: self.turn_count as nat,
            current_tasks: texts(self.current_tasks@),
            mem_mb: self.mem_mb,
            version: self.version@,
            git_branch: self.git_branch@,
            git_added: self.git_added,
            git_modified: self.git_modified,
            token_history: self.token_history@,
            compaction_count: self.compaction_count,
            context_window: self.context_window,
            mem_file_count: self.mem_file_count,
            mem_line_count: self.mem_line_count,
            children: child_views(self.children@),
            initial_prompt: self.initial_prompt@,
            first_assistant_text: self.first_assistant_text@,
            pending_since_ms: self.pending_since_ms,
            thinking_since_ms: self.thinking_since_ms,
            config_root: self.config_root@,
        }
    }
}

/// The views of a list of sessions.
pub open spec fn session_views(v: Seq<AgentSession>) -> Seq<Session> {
    Seq::new(v.len(), |i: int| v[i]@)
}

/// The working directory; empty where it is not known.
pub open spec fn cwd_text(seen: Observation) -> Seq<char> {
    match seen.cwd {
        Some(cwd) => cwd@,
        None => seq![],
    }
}

/// The name of the project: the last segment of the working directory.
pub open spec fn project_of(cwd: Seq<char>) -> Seq<char> {
    match last_segment(cwd) {
        Some(segment) => segment,
        None => "?"@,
    }
}

/// The memory of the process in MiB; 0 where it is gone.
pub open spec fn memory_of(shared: SharedProcessData, pid: u32) -> u64 {
    if shared.process_info@.contains_key(pid) {
        shared.process_info@[pid].rss_kb / 1024
    } else {
        0
    }
}

/// The session of a process, from its log, its events, what was seen of it, what is known of the
/// running processes, and what is configured.
pub open spec fn session_of(
    log: LogSummary,
    events: EventsSummary,
    seen: Observation,
    shared: SharedProcessData,
    cached_model: Seq<char>,
    cached_effort: Seq<char>,
    config_root: Seq<char>,
) -> Session {
    let alive = shared.process_info@.contains_key(seen.pid);
    let status = status_of(alive, log, seen.now_ms, seen.has_active_child);
    let model = first_text(events.model, cached_model);
    let context_tokens = first_number(
        events.context_tokens as int,
        log.context_tokens as int,
    ) as u64;
    let context_window = window(events.context_window, log.context_window, model);
    let cwd = cwd_text(seen);
    let project_name = project_of(cwd);
    Session {
        agent_cli: "copilot"@,
        pid: seen.pid,
        session_id: log.session_id,
        cwd,
        project_name,
        started_at: log.started_at_ms,
        status,
        model,
        effort: first_text(events.effort, cached_effort),
        context_share: if context_tokens > 0 && context_window > 0 {
            Some((context_tokens, context_window))
        } else {
            None
        },
        total_input_tokens: context_tokens,
        total_output_tokens: events.total_output_tokens,
        total_cache_read: 0,
        total_cache_create: 0,
        turn_count: first_number(events.turn_count as int, log.turn_count as int) as nat,
        current_tasks: task_texts(status),
        mem_mb: memory_of(shared, seen.pid),
        version: log.version,
        git_branch: seen.git_branch@,
        git_added: 0,
        git_modified: 0,
        token_history: events.token_history,
        compaction_count: 0,
        context_window,
        mem_file_count: 0,
        mem_line_count: 0,
        children: known_children(shared, below(shared.children_map@, seen.pid)),
        initial_prompt: first_text(log.session_name, first_text(log.repository, project_name)),
        first_assistant_text: seq![],
        pending_since_ms: 0,
        thinking_since_ms: log.thinking_since_ms,
        config_root,
    }
}

/// The session of a process.
pub fn build_session(
    log: &LogResult,
    events: &EventsResult,
    seen: &Observation,
    shared: &SharedProcessData,
    cached_model: &str,
    cached_effort: &str,
    config_root: String,
) -> (r: AgentSession)
    ensures
        r@ == session_of(
            log@,
            events@,
            *seen,
            *shared,
            cached_model@,
            cached_effort@,
            config_root@,
        ),
        r.agent_cli@ == "copilot"@,
        r.pid == seen.pid,
        r.session_id@ == log.session_id@,
        r.version@ == log.version@,
        r.started_at == log.started_at_ms,
        r.thinking_since_ms == log.thinking_since_ms,
        r.git_branch@ == seen.git_branch@,
        r.config_root@ == config_root@,
        seen.cwd matches Some(cwd) ==> r.cwd@ == cwd@,
        seen.cwd is None ==> r.cwd@.len() == 0,
        last_segment(r.cwd@) matches Some(segment) ==> r.project_name@ == segment,
        last_segment(r.cwd@) is None ==> r.project_name@ == "?"@,
        // The status.
        r.status == SessionStatus::Done <==> !shared.process_info@.contains_key(seen.pid),
        r.status == SessionStatus::Thinking <==> shared.process_info@.contains_key(seen.pid)
            && log.model_generating,
        r.status == SessionStatus::Executing <==> shared.process_info@.contains_key(seen.pid)
            && !log.model_generating && log.last_event_ms > 0 && seen.now_ms < log.last_event_ms
            + 30_000 && seen.has_active_child,
        r.status == SessionStatus::Done || r.status == SessionStatus::Thinking || r.status
            == SessionStatus::Executing || r.status == SessionStatus::Waiting,
        texts(r.current_tasks@) == task_texts(r.status),
        // The title.
        log.session_name@.len() > 0 ==> r.initial_prompt@ == log.session_name@,
        log.session_name@.len() == 0 && log.repository@.len() > 0 ==> r.initial_prompt@
            == log.repository@,
        log.session_name@.len() == 0 && log.repository@.len() == 0 ==> r.initial_prompt@
            == r.project_name@,
        // The model and the effort.
        events.model@.len() > 0 ==> r.model@ == events.model@,
        events.model@.len() == 0 ==> r.model@ == cached_model@,
        events.effort@.len() > 0 ==> r.effort@ == events.effort@,
        events.effort@.len() == 0 ==> r.effort@ == cached_effort@,
        // Turns and tokens.
        events.turn_count > 0 ==> r.turn_count == events.turn_count,
        events.turn_count == 0 ==> r.turn_count == log.turn_count,
        r.total_output_tokens == events.total_output_tokens,
        r.token_history@ == events.token_history@,
        events.context_tokens > 0 ==> r.total_input_tokens == events.context_tokens,
        events.context_tokens == 0 ==> r.total_input_tokens == log.context_tokens,
        events.context_window > 0 ==> r.context_window == events.context_window,
        events.context_window == 0 && log.context_window > 0 ==> r.context_window
            == log.context_window,
        events.context_window == 0 && log.context_window == 0 ==> r.context_window == (
        if contains_text(r.model@, "[1m]"@) {
            1_000_000u64
        } else {
            200_000u64
        }),
        r.context_share is Some <==> r.total_input_tokens > 0 && r.context_window > 0,
        r.context_share matches Some((tokens, window)) ==> tokens == r.total_input_tokens && window
            == r.context_window,
        // The process and those below it.
        shared.process_info@.contains_key(seen.pid) ==> r.mem_mb
            == shared.process_info@[seen.pid].rss_kb / 1024,
        !shared.process_info@.contains_key(seen.pid) ==> r.mem_mb == 0,
        r.children@.map_values(|c: ChildProcess| c.pid) == below(
            shared.children_map@,
            seen.pid,
        ).filter(|p: u32| shared.process_info@.contains_key(p)),
        forall|i: int|
            0 <= i < r.children@.len() ==> {
                let c = #[trigger] r.children@[i];
                &&& shared.process_info@.contains_key(c.pid)
                &&& c.command@ == shared.process_info@[c.pid].command@
                &&& c.mem_kb == shared.process_info@[c.pid].rss_kb
                &&& c.port is Some <==> shared.ports@.contains_key(c.pid)
                    && shared.ports@[c.pid]@.len() > 0
                &&& c.port matches Some(port) ==> port == shared.ports@[c.pid]@[0]
            },
        // What is filled in elsewhere.
        r.total_cache_read == 0 && r.total_cache_create == 0,
        r.git_added == 0 && r.git_modified == 0 && r.compaction_count == 0,
        r.mem_file_count == 0 && r.mem_line_count == 0 && r.pending_since_ms == 0,
        r.first_assistant_text@.len() == 0,
{
    let pid: u32 = seen.pid;
    let (alive, mem_mb): (bool, u64) = match shared.process_info.get(&pid) {
        Some(info) => (true, info.rss_kb / 1024),
        None => (false, 0),
    };
    let cwd = match &seen.cwd {
        Some(cwd) => cwd.clone(),
        None => String::new(),
    };
    let project_name = match last_path_segment(cwd.as_str()) {
        Some(segment) => segment,
        None => "?".to_owned(),
    };
    let status = session_status(alive, log, seen.now_ms, seen.has_active_child);
    let current_tasks = tasks_for_status(&status);
    let children = child_processes(pid, shared);
    let model = resolved_model(events.model.as_str(), cached_model);
    let effort = resolved_effort(events.effort.as_str(), cached_effort);
    let turn_count: u32 = resolved_turn_count(events.turn_count, log.turn_count);
    let context_tokens: u64 = resolved_context_tokens(events.context_tokens, log.context_tokens);
    let context_window: u64 = resolved_context_window(
        events.context_window,
        log.context_window,
        model.as_str(),
    );
    let context_share: Option<(u64, u64)> = if context_tokens > 0 && context_window > 0 {
        Some((context_tokens, context_window))
    } else {
        None
    };
    let initial_prompt = if !log.session_name.as_str().is_empty() {
        log.session_name.clone()
    } else if !log.repository.as_str().is_empty() {
        log.repository.clone()
    } else {
        project_name.clone()
    };
    let token_history = events.token_history.clone();
    assert(token_history@ =~= events.token_history@);
    AgentSession {
        agent_cli: "copilot",
        pid,
        session_id: log.session_id.clone(),
        cwd,
        project_name,
        started_at: log.started_at_ms,
        status,
        model,
        effort,
        context_share,
        total_input_tokens: context_tokens,
        total_output_tokens: events.total_output_tokens,
        total_cache_read: 0,
        total_cache_create: 0,
        turn_count,
        current_tasks,
        mem_mb,
        version: log.version.clone(),
        git_branch: seen.git_branch.clone(),
        git_added: 0,
        git_modified: 0,
        token_history,
        compaction_count: 0,
        context_window,
        mem_file_count: 0,
        mem_line_count: 0,
        children,
        initial_prompt,
        first_assistant_text: String::new(),
        pending_since_ms: 0,
        thinking_since_ms: log.thinking_since_ms,
        config_root,
    }
}

/// A live session with a request under way thinks, however old its log is and whatever its children
/// do. One without executes where a child is busy and the log is younger than 30 seconds, and waits
/// otherwise. One whose process is gone is done.
pub proof fn law_status_follows_process_request_and_children(
    log: LogSummary,
    now_ms: u64,
    has_active_child: bool,
)
    ensures
        status_of(false, log, now_ms, has_active_child) == SessionStatus::Done,
        log.model_generating ==> status_of(true, log, now_ms, has_active_child)
            == SessionStatus::Thinking,
        !log.model_generating ==> status_of(true, log, now_ms, false) == SessionStatus::Waiting,
        !log.model_generating && log.last_event_ms > 0 && now_ms < log.last_event_ms + 30_000
            ==> status_of(true, log, now_ms, true) == SessionStatus::Executing,
        !log.model_generating && (log.last_event_ms == 0 || now_ms >= log.last_event_ms + 30_000)
            ==> status_of(true, log, now_ms, true) == SessionStatus::Waiting,
{
}

/// A session is called by its name, and only without one by its repository, and only without either
/// by its directory. A live model, effort and turn count hide what is configured or logged.
pub proof fn law_session_shows_the_first_that_is_known(
    log: LogSummary,
    events: EventsSummary,
    seen: Observation,
    shared: SharedProcessData,
    cached_model: Seq<char>,
    cached_effort: Seq<char>,
    config_root: Seq<char>,
)
    ensures
        ({
            let s = session_of(log, events, seen, shared, cached_model, cached_effort, config_root);
            &&& log.session_name.len() > 0 ==> s.initial_prompt == log.session_name
            &&& log.session_name.len() == 0 && log.repository.len() > 0 ==> s.initial_prompt
                == log.repository
            &&& log.session_name.len() == 0 && log.repository.len() == 0 ==> s.initial_prompt
                == s.project_name
            &&& events.model.len() > 0 ==> s.model == events.model
            &&& events.model.len() == 0 ==> s.model == cached_model
            &&& events.effort.len() > 0 ==> s.effort == events.effort
            &&& events.effort.len() == 0 ==> s.effort == cached_effort
            &&& events.turn_count > 0 ==> s.turn_count == events.turn_count
            &&& events.turn_count == 0 ==> s.turn_count == log.turn_count
            &&& events.context_tokens > 0 ==> s.total_input_tokens == events.context_tokens
            &&& events.context_tokens == 0 ==> s.total_input_tokens == log.context_tokens
            &&& events.context_window > 0 ==> s.context_window == events.context_window
            &&& events.context_window == 0 && log.context_window > 0 ==> s.context_window
                == log.context_window
            &&& s.status == SessionStatus::Thinking <==> shared.process_info@.contains_key(seen.pid)
                && log.model_generating
            &&& s.status == SessionStatus::Done <==> !shared.process_info@.contains_key(seen.pid)
            &&& s.pid == seen.pid && s.session_id == log.session_id
            &&& s.version == log.version && s.started_at == log.started_at_ms
            &&& s.thinking_since_ms == log.thinking_since_ms
            &&& s.git_branch == seen.git_branch@ && s.config_root == config_root
            &&& s.total_output_tokens == events.total_output_tokens
            &&& s.token_history == events.token_history
        }),
{
}

/// A session shows every one of its fields as it is.
pub proof fn law_session_shows_its_fields(r: AgentSession)
    ensures
        r@.agent_cli == r.agent_cli@ && r@.pid == r.pid && r@.session_id == r.session_id@,
        r@.cwd == r.cwd@ && r@.project_name == r.project_name@ && r@.started_at == r.started_at,
        r@.status == r.status && r@.model == r.model@ && r@.effort == r.effort@,
        r@.context_share == r.context_share && r@.context_window == r.context_window,
        r@.total_input_tokens == r.total_input_tokens,
        r@.total_output_tokens == r.total_output_tokens,
        r@.total_cache_read == r.total_cache_read && r@.total_cache_create == r.total_cache_create,
        r@.turn_count == r.turn_count && r@.mem_mb == r.mem_mb && r@.version == r.version@,
        r@.git_branch == r.git_branch@ && r@.git_added == r.git_added,
        r@.git_modified == r.git_modified && r@.token_history == r.token_history@,
        r@.compaction_count == r.compaction_count && r@.mem_file_count == r.mem_file_count,
        r@.mem_line_count == r.mem_line_count && r@.initial_prompt == r.initial_prompt@,
        r@.first_assistant_text == r.first_assistant_text@,
        r@.pending_since_ms == r.pending_since_ms && r@.thinking_since_ms == r.thinking_since_ms,
        r@.config_root == r.config_root@,
        r@.current_tasks.len() == r.current_tasks@.len() && r@.children.len() == r.children@.len(),
        forall|i: int|
            0 <= i < r.current_tasks@.len() ==> #[trigger] r@.current_tasks[i]
                == r.current_tasks@[i]@,
        forall|i: int|
            0 <= i < r.children@.len() ==> #[trigger] r@.children[i] == r.children@[i]@,
{
}

} // verus!
