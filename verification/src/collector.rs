//! The collector: what is kept from one look at the sessions to the next.
//!
//! The files are those in `~/.copilot`: `logs/process-{timestamp}-{pid}.log` for each process,
//! `session-state/{session}/events.jsonl` for each session, and `settings.json`. Whoever runs the
//! collector reads them; the collector says which, from where on, and what they add up to.
use crate::events::{EventsCache, EventsResult, EventsSummary, MAX_TOKEN_HISTORY};
use crate::log::{
    is_hex, is_uuid_text, law_log_invariant, log_invariant, LogCache, LogResult, LogSummary,
};
use crate::ordering::{is_ordered, newest_first};
use crate::paths::{
    abbrev_path, abbreviated, join, joined, law_home_is_abbreviated, law_one_slash_joins, same_path,
};
use crate::processes::SharedProcessData;
use crate::session::{
    build_session, session_of, session_views, AgentSession, Observation, Session, SessionStatus,
};
use crate::settings::{content_text, read_effort_from_settings, read_model_from_settings, setting};
use crate::tail::{
    begin_update, complete_part, finish_update, is_clean_cut, law_reading_on_is_reading_all,
    run, unread_cache, LineFold, LineSink, Tail, TailCache,
};
use crate::text::{bytes_text, lines};
use std::collections::HashMap;
use vstd::prelude::*;
use vstd::slice::slice_to_vec;
use vstd::utf8::{encode_utf8, is_ascii_chars, is_ascii_chars_encode_utf8};

verus! {

broadcast use vstd::std_specs::hash::group_hash_axioms;

/// `dirs::home_dir`: the home directory of the user, as the bytes that its path is made of. It
/// rests on the environment, so nothing is said of it.
#[verifier::external_body]
fn home_dir() -> (r: Option<Vec<u8>>) {
    match dirs::home_dir() {
        Some(path) => Some(path.into_os_string().into_encoded_bytes()),
        None => None,
    }
}

/// The directory of the CLI in the home directory.
pub open spec fn config_dir(home: Seq<u8>) -> Seq<u8> {
    joined(home, ".copilot"@)
}

/// The directory of the logs.
pub open spec fn logs_dir_in(home: Seq<u8>) -> Seq<u8> {
    joined(config_dir(home), "logs"@)
}

/// The settings file.
pub open spec fn settings_path_in(home: Seq<u8>) -> Seq<u8> {
    joined(config_dir(home), "settings.json"@)
}

/// The event stream of a session.
pub open spec fn events_path_in(home: Seq<u8>, session_id: Seq<char>) -> Seq<u8> {
    joined(joined(joined(config_dir(home), "session-state"@), session_id), "events.jsonl"@)
}

/// The directory of the CLI as it is shown.
pub open spec fn config_root_of(home: Seq<u8>) -> Seq<char> {
    abbreviated(config_dir(home), home)
}

/// Collects the sessions of the CLI.
pub struct CopilotCollector {
    /// The path of the home directory.
    home: Vec<u8>,
    /// The configured model, as it was last read.
    cached_model: String,
    /// The configured reasoning effort, as it was last read.
    cached_effort: String,
    /// How far the log of each process has been read.
    log_cache: HashMap<u32, LogCache>,
    /// How far the event stream of each process has been read.
    events_cache: HashMap<u32, EventsCache>,
}

/// The views of the caches.
pub open spec fn tails<R: LineSink>(caches: Map<u32, TailCache<R>>) -> Map<u32, Tail<R::Summary>> {
    caches.map_values(|cache: TailCache<R>| cache@)
}

/// The mathematical view of a `CopilotCollector`.
pub struct Collector {
    pub home: Seq<u8>,
    pub cached_model: Seq<char>,
    pub cached_effort: Seq<char>,
    pub logs: Map<u32, Tail<LogSummary>>,
    pub events: Map<u32, Tail<EventsSummary>>,
}

/// The file as it is followed: from where it was left, or unread if it is a new one.
pub open spec fn followed<S: LineFold>(tails: Map<u32, Tail<S>>, pid: u32, path: Seq<u8>) -> Tail<
    S,
> {
    if tails.contains_key(pid) && tails[pid].path == path {
        tails[pid]
    } else {
        Tail::unread(path)
    }
}

/// The file as it is followed, ready to be read at this length; `None` where it cannot be opened.
pub open spec fn begun<S: LineFold>(
    tails: Map<u32, Tail<S>>,
    pid: u32,
    path: Seq<u8>,
    file_len: Option<u64>,
) -> Tail<S> {
    match file_len {
        Some(n) => followed(tails, pid, path).before_reading(n as nat),
        None => followed(tails, pid, path),
    }
}

/// From where the file is to be read on, if it holds anything new.
pub open spec fn read_from<S: LineFold>(tail: Tail<S>, file_len: Option<u64>) -> Option<nat> {
    match file_len {
        Some(n) => if n as nat == tail.offset {
            None
        } else {
            Some(tail.offset)
        },
        None => None,
    }
}

/// An optional position, as a number without a limit.
pub open spec fn position(r: Option<u64>) -> Option<nat> {
    match r {
        Some(n) => Some(n as nat),
        None => None,
    }
}

/// The processes that were seen.
pub open spec fn seen_pids(seen: Seq<Observation>) -> Set<u32> {
    Set::new(|pid: u32| exists|i: int| 0 <= i < seen.len() && (#[trigger] seen[i]).pid == pid)
}

impl Collector {
    /// A collector that has seen nothing yet.
    pub open spec fn fresh(home: Seq<u8>) -> Collector {
        Collector {
            home,
            cached_model: seq![],
            cached_effort: seq![],
            logs: Map::empty(),
            events: Map::empty(),
        }
    }

    /// The settings are to be read.
    pub open spec fn needs_settings(self, slow_tick: bool) -> bool {
        slow_tick || self.cached_model.len() == 0 || self.cached_effort.len() == 0
    }

    /// The settings were read: on a slow tick they replace the cached ones, at other times only
    /// those that are empty.
    pub open spec fn with_settings(self, slow_tick: bool, content: Option<Seq<char>>) -> Collector {
        Collector {
            cached_model: if slow_tick || self.cached_model.len() == 0 {
                setting(content, "model"@)
            } else {
                self.cached_model
            },
            cached_effort: if slow_tick || self.cached_effort.len() == 0 {
                setting(content, "effortLevel"@)
            } else {
                self.cached_effort
            },
            ..self
        }
    }

    /// The log of the process is about to be read.
    pub open spec fn log_begun(self, pid: u32, path: Seq<u8>, file_len: Option<u64>) -> Collector {
        Collector { logs: self.logs.insert(pid, begun(self.logs, pid, path, file_len)), ..self }
    }

    /// Bytes of the log of the process were read; whether all complete lines were taken.
    pub open spec fn log_read(self, pid: u32, bytes: Seq<u8>) -> (Collector, bool) {
        if self.logs.contains_key(pid) {
            let (tail, taken) = self.logs[pid].after_bytes(bytes);
            (Collector { logs: self.logs.insert(pid, tail), ..self }, taken)
        } else {
            (self, true)
        }
    }

    /// The session of the process, once its log names it.
    pub open spec fn session_id(self, pid: u32) -> Option<Seq<char>> {
        if self.logs.contains_key(pid) && self.logs[pid].result.session_id.len() > 0 {
            Some(self.logs[pid].result.session_id)
        } else {
            None
        }
    }

    /// The event stream of the process, once its log names the session.
    pub open spec fn events_path(self, pid: u32) -> Option<Seq<u8>> {
        match self.session_id(pid) {
            Some(id) => Some(events_path_in(self.home, id)),
            None => None,
        }
    }

    /// The event stream of the process is about to be read.
    pub open spec fn events_begun(self, pid: u32, file_len: Option<u64>) -> Collector {
        match self.events_path(pid) {
            Some(path) => Collector {
                events: self.events.insert(pid, begun(self.events, pid, path, file_len)),
                ..self
            },
            None => self,
        }
    }

    /// Bytes of the event stream of the process were read; whether all complete lines were taken.
    pub open spec fn events_read(self, pid: u32, bytes: Seq<u8>) -> (Collector, bool) {
        if self.events.contains_key(pid) {
            let (tail, taken) = self.events[pid].after_bytes(bytes);
            (Collector { events: self.events.insert(pid, tail), ..self }, taken)
        } else {
            (self, true)
        }
    }

    /// What the event stream of the process adds up to, as far as it was read.
    pub open spec fn events_of(self, pid: u32) -> EventsSummary {
        if self.events.contains_key(pid) {
            self.events[pid].result
        } else {
            EventsSummary::nothing()
        }
    }

    /// The sessions of the processes that were seen, as far as their logs name one, in the order
    /// in which they were seen.
    pub open spec fn sessions(self, shared: SharedProcessData, seen: Seq<Observation>) -> Seq<Session>
        decreases seen.len(),
    {
        if seen.len() == 0 {
            seq![]
        } else {
            let earlier = self.sessions(shared, seen.drop_last());
            let last = seen.last();
            if self.session_id(last.pid) is Some {
                earlier.push(
                    session_of(
                        self.logs[last.pid].result,
                        self.events_of(last.pid),
                        last,
                        shared,
                        self.cached_model,
                        self.cached_effort,
                        config_root_of(self.home),
                    ),
                )
            } else {
                earlier
            }
        }
    }

    /// Only what is kept of these processes.
    pub open spec fn only(self, pids: Set<u32>) -> Collector {
        Collector { logs: self.logs.restrict(pids), events: self.events.restrict(pids), ..self }
    }
}

/// Follows a file and prepares for reading it.
fn begin<R: LineSink>(
    caches: &mut HashMap<u32, TailCache<R>>,
    pid: u32,
    path: &[u8],
    file_len: Option<u64>,
) -> (r: Option<u64>)
    ensures
        tails(final(caches)@) == tails(old(caches)@).insert(
            pid,
            begun(tails(old(caches)@), pid, path@, file_len),
        ),
        position(r) == read_from(begun(tails(old(caches)@), pid, path@, file_len), file_len),
{
    let ghost before = caches@;
    let mut cache: TailCache<R> = match caches.remove(&pid) {
        Some(cache) => {
            assert(tails(before)[pid] == cache@);
            if same_path(cache.path.as_slice(), path) {
                cache
            } else {
                unread_cache(slice_to_vec(path))
            }
        },
        None => unread_cache(slice_to_vec(path)),
    };
    assert(cache@ == followed(tails(before), pid, path@));
    let r: Option<u64> = match file_len {
        Some(n) => begin_update(&mut cache, n),
        None => None,
    };
    caches.insert(pid, cache);
    assert(tails(caches@) =~= tails(before).insert(pid, cache@));
    r
}

/// Takes bytes that were read from a file that is followed.
fn finish<R: LineSink>(
    caches: &mut HashMap<u32, TailCache<R>>,
    pid: u32,
    bytes: &[u8],
) -> (r: bool)
    ensures
        tails(old(caches)@).contains_key(pid) ==> {
            let (tail, taken) = tails(old(caches)@)[pid].after_bytes(bytes@);
            r == taken && tails(final(caches)@) == tails(old(caches)@).insert(pid, tail)
        },
        !tails(old(caches)@).contains_key(pid) ==> r && tails(final(caches)@) == tails(old(caches)@),
{
    let ghost before = caches@;
    match caches.remove(&pid) {
        Some(mut cache) => {
            assert(tails(before)[pid] == cache@);
            let taken = finish_update(&mut cache, bytes);
            caches.insert(pid, cache);
            assert(tails(caches@) =~= tails(before).insert(pid, cache@));
            taken
        },
        None => {
            assert(caches@ =~= before);
            true
        },
    }
}

/// Keeps only the caches of the processes that were seen.
fn evict<R: LineSink>(caches: &mut HashMap<u32, TailCache<R>>, seen: &Vec<Observation>)
    ensures
        tails(final(caches)@) == tails(old(caches)@).restrict(seen_pids(seen@)),
{
    let ghost all = caches@;
    let mut kept: HashMap<u32, TailCache<R>> = HashMap::new();
    let mut i: usize = 0;
    assert(kept@ =~= all.restrict(seen_pids(seen@.take(0))));
    assert(caches@ =~= all.remove_keys(seen_pids(seen@.take(0))));
    while i < seen.len()
        invariant
            i <= seen@.len(),
            kept@ == all.restrict(seen_pids(seen@.take(i as int))),
            caches@ == all.remove_keys(seen_pids(seen@.take(i as int))),
        decreases seen@.len() - i,
    {
        let pid: u32 = seen[i].pid;
        let ghost done = seen@.take(i as int);
        let ghost next = seen@.take(i + 1);
        assert(seen_pids(next) =~= seen_pids(done).insert(pid)) by {
            assert forall|p: u32| seen_pids(next).contains(p) <==> seen_pids(done).contains(p) || p
                == pid by {
                if seen_pids(next).contains(p) {
                    let k = choose|k: int| 0 <= k < next.len() && (#[trigger] next[k]).pid == p;
                    if k < i {
                        assert(done[k].pid == p);
                    }
                }
                if seen_pids(done).contains(p) {
                    let k = choose|k: int| 0 <= k < done.len() && (#[trigger] done[k]).pid == p;
                    assert(next[k].pid == p);
                }
                assert(next[i as int].pid == pid);
            }
        }
        if let Some(cache) = caches.remove(&pid) {
            kept.insert(pid, cache);
        }
        assert(kept@ =~= all.restrict(seen_pids(next)));
        assert(caches@ =~= all.remove_keys(seen_pids(next)));
        i += 1;
    }
    assert(seen@.take(i as int) =~= seen@);
    *caches = kept;
    assert(tails(caches@) =~= tails(all).restrict(seen_pids(seen@)));
}

impl CopilotCollector {
    /// The mathematical view.
    pub closed spec fn view(&self) -> Collector {
        Collector {
            home: self.home@,
            cached_model: self.cached_model@,
            cached_effort: self.cached_effort@,
            logs: tails(self.log_cache@),
            events: tails(self.events_cache@),
        }
    }

    /// A collector for the user's home directory, which has seen nothing yet. Which directory that
    /// is rests on the environment.
    pub fn new() -> (r: Self)
        ensures
            r@ == Collector::fresh(r@.home),
    {
        Self::with_home_dir(home_dir())
    }

    /// A collector for this home directory, or for the current directory where there is none.
    pub fn with_home_dir(home: Option<Vec<u8>>) -> (r: Self)
        ensures
            r@ == Collector::fresh(
                match home {
                    Some(home) => home@,
                    None => seq![],
                },
            ),
    {
        match home {
            Some(home) => Self::with_home(home),
            None => {
                let none: Vec<u8> = Vec::new();
                assert(none@ =~= seq![]);
                Self::with_home(none)
            },
        }
    }

    /// A collector for this home directory, which has seen nothing yet.
    pub fn with_home(home: Vec<u8>) -> (r: Self)
        ensures
            r@ == Collector::fresh(home@),
    {
        let r = CopilotCollector {
            home,
            cached_model: String::new(),
            cached_effort: String::new(),
            log_cache: HashMap::new(),
            events_cache: HashMap::new(),
        };
        assert(r@.logs =~= Map::empty());
        assert(r@.events =~= Map::empty());
        r
    }

    /// The directory of the CLI.
    fn config_path(&self) -> (r: Vec<u8>)
        ensures
            r@ == config_dir(self@.home),
    {
        join(self.home.as_slice(), ".copilot")
    }

    /// The directory of the logs.
    pub fn logs_dir(&self) -> (r: Vec<u8>)
        ensures
            r@ == logs_dir_in(self@.home),
    {
        join(self.config_path().as_slice(), "logs")
    }

    /// The settings file.
    pub fn settings_path(&self) -> (r: Vec<u8>)
        ensures
            r@ == settings_path_in(self@.home),
    {
        join(self.config_path().as_slice(), "settings.json")
    }

    /// The directory of the CLI, abbreviated, such as `~/.copilot`.
    pub fn config_root(&self) -> (r: String)
        ensures
            r@ == config_root_of(self@.home),
    {
        abbrev_path(self.config_path().as_slice(), self.home.as_slice())
    }

    /// Whether the settings are to be read.
    pub fn needs_settings(&self, slow_tick: bool) -> (r: bool)
        ensures
            r == self@.needs_settings(slow_tick),
            !r <==> !slow_tick && self@.cached_model.len() > 0 && self@.cached_effort.len() > 0,
    {
        slow_tick || self.cached_model.as_str().is_empty() || self.cached_effort.as_str().is_empty()
    }

    /// Takes the settings from a file of this content; `None` where it cannot be read.
    pub fn refresh_settings(&mut self, slow_tick: bool, content: Option<&str>)
        ensures
            final(self)@ == old(self)@.with_settings(slow_tick, content_text(content)),
    {
        if slow_tick || self.cached_model.as_str().is_empty() {
            self.cached_model = read_model_from_settings(content);
        }
        if slow_tick || self.cached_effort.as_str().is_empty() {
            self.cached_effort = read_effort_from_settings(content);
        }
    }

    /// Prepares for reading the log of the process, whose length is `file_len`; `None` where it
    /// cannot be opened. Answers from where to read, if there is anything new.
    pub fn begin_log(&mut self, pid: u32, path: &[u8], file_len: Option<u64>) -> (r: Option<u64>)
        ensures
            final(self)@ == old(self)@.log_begun(pid, path@, file_len),
            position(r) == read_from(final(self)@.logs[pid], file_len),
    {
        begin(&mut self.log_cache, pid, path, file_len)
    }

    /// Takes bytes that were read from the log of the process, from where it was left. Answers
    /// whether all complete lines were taken.
    pub fn finish_log(&mut self, pid: u32, bytes: &[u8]) -> (r: bool)
        ensures
            (final(self)@, r) == old(self)@.log_read(pid, bytes@),
    {
        finish(&mut self.log_cache, pid, bytes)
    }

    /// The event stream of the process, once its log names the session.
    pub fn events_path(&self, pid: u32) -> (r: Option<Vec<u8>>)
        ensures
            match r {
                Some(path) => self@.events_path(pid) == Some(path@),
                None => self@.events_path(pid) is None,
            },
    {
        match self.log_cache.get(&pid) {
            Some(cache) => {
                assert(self@.logs[pid] == cache@);
                let id = cache.result.session_id.as_str();
                if id.is_empty() {
                    None
                } else {
                    let state = join(self.config_path().as_slice(), "session-state");
                    let dir = join(state.as_slice(), id);
                    Some(join(dir.as_slice(), "events.jsonl"))
                }
            },
            None => None,
        }
    }

    /// Prepares for reading the event stream of the process, whose length is `file_len`; `None`
    /// where it cannot be opened. Answers from where to read, if there is anything new.
    pub fn begin_events(&mut self, pid: u32, file_len: Option<u64>) -> (r: Option<u64>)
        ensures
            final(self)@ == old(self)@.events_begun(pid, file_len),
            position(r) == match old(self)@.events_path(pid) {
                Some(_) => read_from(final(self)@.events[pid], file_len),
                None => None,
            },
    {
        match self.events_path(pid) {
            Some(path) => begin(&mut self.events_cache, pid, path.as_slice(), file_len),
            None => None,
        }
    }

    /// Takes bytes that were read from the event stream of the process, from where it was left.
    /// Answers whether all complete lines were taken.
    pub fn finish_events(&mut self, pid: u32, bytes: &[u8]) -> (r: bool)
        ensures
            (final(self)@, r) == old(self)@.events_read(pid, bytes@),
    {
        finish(&mut self.events_cache, pid, bytes)
    }

    /// The session of a process that was seen, if its log names one.
    fn session(&self, shared: &SharedProcessData, seen: &Observation) -> (r: Option<AgentSession>)
        ensures
            match r {
                Some(session) => self@.session_id(seen.pid) is Some && session@ == session_of(
                    self@.logs[seen.pid].result,
                    self@.events_of(seen.pid),
                    *seen,
                    *shared,
                    self@.cached_model,
                    self@.cached_effort,
                    config_root_of(self@.home),
                ),
                None => self@.session_id(seen.pid) is None,
            },
    {
        let log: &LogResult = match self.log_cache.get(&seen.pid) {
            Some(cache) => {
                assert(self@.logs[seen.pid] == cache@);
                &cache.result
            },
            None => {
                return None;
            },
        };
        if log.session_id.as_str().is_empty() {
            return None;
        }
        let model = self.cached_model.as_str();
        let effort = self.cached_effort.as_str();
        let root = self.config_root();
        match self.events_cache.get(&seen.pid) {
            Some(cache) => {
                assert(self@.events[seen.pid] == cache@);
                Some(build_session(log, &cache.result, seen, shared, model, effort, root))
            },
            None => {
                let nothing = EventsResult::default();
                Some(build_session(log, &nothing, seen, shared, model, effort, root))
            },
        }
    }

    /// The sessions of the processes that were seen, the one that started last in front. What is
    /// kept of other processes is dropped.
    pub fn collect_sessions(&mut self, shared: &SharedProcessData, seen: &Vec<Observation>) -> (r:
        Vec<AgentSession>)
        ensures
            is_ordered(session_views(r@), old(self)@.sessions(*shared, seen@)),
            final(self)@ == old(self)@.only(seen_pids(seen@)),
            session_views(r@).to_multiset() == old(self)@.sessions(*shared, seen@).to_multiset(),
            forall|i: int, j: int|
                0 <= i < j < r@.len() ==> #[trigger] r@[i].started_at
                    >= #[trigger] r@[j].started_at,
    {
        let mut sessions: Vec<AgentSession> = Vec::new();
        let mut i: usize = 0;
        assert(session_views(sessions@) =~= self@.sessions(*shared, seen@.take(0)));
        while i < seen.len()
            invariant
                i <= seen@.len(),
                *self == *old(self),
                session_views(sessions@) == self@.sessions(*shared, seen@.take(i as int)),
            decreases seen@.len() - i,
        {
            let ghost done = sessions@;
            assert(seen@.take(i + 1).drop_last() =~= seen@.take(i as int));
            assert(seen@.take(i + 1).last() == seen@[i as int]);
            if let Some(session) = self.session(shared, &seen[i]) {
                sessions.push(session);
                assert(session_views(sessions@) =~= session_views(done).push(session@));
            }
            i += 1;
        }
        assert(seen@.take(i as int) =~= seen@);
        evict(&mut self.log_cache, seen);
        evict(&mut self.events_cache, seen);
        newest_first(sessions)
    }

    /// The sessions of the processes that were seen, as `collect_sessions` has them. Without a
    /// directory of logs there are none, and nothing changes.
    pub fn collect_from_logs(
        &mut self,
        logs_dir_exists: bool,
        shared: &SharedProcessData,
        seen: &Vec<Observation>,
    ) -> (r: Vec<AgentSession>)
        ensures
            !logs_dir_exists ==> r@.len() == 0 && final(self)@ == old(self)@,
            logs_dir_exists ==> is_ordered(
                session_views(r@),
                old(self)@.sessions(*shared, seen@),
            ) && final(self)@ == old(self)@.only(seen_pids(seen@)),
    {
        if logs_dir_exists {
            self.collect_sessions(shared, seen)
        } else {
            Vec::new()
        }
    }
}

impl Default for CopilotCollector {
    fn default() -> (r: Self)
        ensures
            r@ == Collector::fresh(r@.home),
    {
        Self::new()
    }
}

impl Collector {
    /// Every log names its session by a UUID or not at all, no token history outgrows its limit,
    /// and every event stream belongs to a process whose log is known.
    pub open spec fn is_consistent(self) -> bool {
        &&& forall|pid: u32| #[trigger]
            self.logs.contains_key(pid) ==> log_invariant(self.logs[pid].result)
        &&& forall|pid: u32| #[trigger]
            self.events.contains_key(pid) ==> {
                &&& self.events[pid].result.token_history.len() <= MAX_TOKEN_HISTORY
                &&& self.logs.contains_key(pid)
            }
    }
}

proof fn lemma_history_within_limit(s: EventsSummary, lines: Seq<Seq<char>>)
    requires
        s.token_history.len() <= MAX_TOKEN_HISTORY,
    ensures
        run(s, lines).0.token_history.len() <= MAX_TOKEN_HISTORY,
    decreases lines.len(),
{
    if lines.len() > 0 {
        if let Some(next) = s.step(lines[0]) {
            lemma_history_within_limit(next, lines.drop_first());
        }
    }
}

/// A collector is consistent from the start, and everything that happens to it leaves it so.
pub proof fn law_collector_stays_consistent(
    c: Collector,
    home: Seq<u8>,
    slow_tick: bool,
    content: Option<Seq<char>>,
    pid: u32,
    path: Seq<u8>,
    file_len: Option<u64>,
    bytes: Seq<u8>,
    pids: Set<u32>,
)
    requires
        c.is_consistent(),
    ensures
        Collector::fresh(home).is_consistent(),
        c.with_settings(slow_tick, content).is_consistent(),
        c.log_begun(pid, path, file_len).is_consistent(),
        c.log_read(pid, bytes).0.is_consistent(),
        c.events_begun(pid, file_len).is_consistent(),
        c.events_read(pid, bytes).0.is_consistent(),
        c.only(pids).is_consistent(),
{
    if c.logs.contains_key(pid) {
        let tail = c.logs[pid];
        law_log_invariant(tail.result, lines(complete_part(tail.partial + bytes_text(bytes))));
    }
    if c.events.contains_key(pid) {
        let tail = c.events[pid];
        lemma_history_within_limit(tail.result, lines(complete_part(tail.partial + bytes_text(bytes))));
    }
}

/// Every session belongs to a process that was seen, is named by a UUID, has a token history
/// within its limit, and is done exactly when the process is gone.
pub proof fn law_sessions_are_of_seen_processes(
    c: Collector,
    shared: SharedProcessData,
    seen: Seq<Observation>,
)
    requires
        c.is_consistent(),
    ensures
        forall|i: int|
            0 <= i < c.sessions(shared, seen).len() ==> {
                let s = #[trigger] c.sessions(shared, seen)[i];
                &&& seen_pids(seen).contains(s.pid)
                &&& is_uuid_text(s.session_id)
                &&& s.token_history.len() <= MAX_TOKEN_HISTORY
                &&& s.status == SessionStatus::Done <==> !shared.process_info@.contains_key(s.pid)
            },
    decreases seen.len(),
{
    if seen.len() > 0 {
        let before = seen.drop_last();
        law_sessions_are_of_seen_processes(c, shared, before);
        let all = c.sessions(shared, seen);
        let earlier = c.sessions(shared, before);
        assert forall|i: int| 0 <= i < all.len() implies {
            let s = #[trigger] all[i];
            &&& seen_pids(seen).contains(s.pid)
            &&& is_uuid_text(s.session_id)
            &&& s.token_history.len() <= MAX_TOKEN_HISTORY
            &&& s.status == SessionStatus::Done <==> !shared.process_info@.contains_key(s.pid)
        } by {
            if i < earlier.len() {
                assert(all[i] == earlier[i]);
                let k = choose|k: int| 0 <= k < before.len() && (#[trigger] before[k]).pid
                    == earlier[i].pid;
                assert(seen[k].pid == earlier[i].pid);
            } else {
                assert(seen[seen.len() - 1].pid == all[i].pid);
            }
        }
    }
}

/// A file that is followed ends up as if all of it had just been read, whatever became of it since
/// the last time: it is another file now, it got shorter, or it grew. It may also have grown between
/// the moment its length `n` was taken and its reading. Where it is not read, nothing up to `n` was
/// missed.
pub proof fn law_followed_file_is_read_as_a_whole<S: LineFold>(
    tails: Map<u32, Tail<S>>,
    pid: u32,
    path: Seq<u8>,
    known: Seq<u8>,
    n: u64,
    content: Seq<u8>,
)
    requires
        n <= content.len() <= u64::MAX,
        tails.contains_key(pid) && tails[pid].path == path ==> {
            ||| n < tails[pid].offset
            ||| tails[pid].in_step_with(known) && known.is_prefix_of(content) && is_clean_cut(
                known,
                content.skip(known.len() as int),
            )
        },
    ensures
        ({
            let tail = begun(tails, pid, path, Some(n));
            match read_from(tail, Some(n)) {
                Some(at) => tail.after_bytes(content.skip(at as int)) == Tail::<S>::unread(
                    path,
                ).after_update(content),
                None => tail.in_step_with(content.take(n as int)),
            }
        }),
{
    let tail = begun(tails, pid, path, Some(n));
    assert(content.skip(0) =~= content);
    if tails.contains_key(pid) && tails[pid].path == path && n >= tails[pid].offset {
        let new = content.skip(known.len() as int);
        assert(content =~= known + new);
        if n == tail.offset {
            assert(content.take(n as int) =~= known);
        } else {
            law_reading_on_is_reading_all(tail, known, new);
        }
    } else if n == 0 {
        assert(content.take(0) =~= seq![]);
    }
}

/// Bytes count once: after a read, the next one begins right behind the bytes that were taken.
pub proof fn law_bytes_are_read_once<S: LineFold>(tail: Tail<S>, bytes: Seq<u8>, n: u64)
    requires
        tail.offset + bytes.len() < n,
    ensures
        read_from(tail.after_bytes(bytes).0.before_reading(n as nat), Some(n)) == Some(
            tail.offset + bytes.len(),
        ),
{
}

/// What is known of a process that was seen stays as it is; one that was not seen is forgotten, and
/// its files are read from their start should it come back.
pub proof fn law_unseen_process_is_forgotten(c: Collector, pids: Set<u32>, pid: u32, path: Seq<u8>)
    ensures
        pids.contains(pid) ==> {
            &&& c.only(pids).session_id(pid) == c.session_id(pid)
            &&& c.only(pids).events_of(pid) == c.events_of(pid)
            &&& followed(c.only(pids).logs, pid, path) == followed(c.logs, pid, path)
            &&& followed(c.only(pids).events, pid, path) == followed(c.events, pid, path)
        },
        !pids.contains(pid) ==> {
            &&& c.only(pids).session_id(pid) is None
            &&& c.only(pids).events_of(pid) == EventsSummary::nothing()
            &&& followed(c.only(pids).logs, pid, path) == Tail::<LogSummary>::unread(path)
            &&& followed(c.only(pids).events, pid, path) == Tail::<EventsSummary>::unread(path)
        },
{
}

/// What is read of the files of one process in one look.
pub struct Reading {
    pub pid: u32,
    /// The path of its log.
    pub path: Seq<u8>,
    /// The length of the log, if it can be opened.
    pub log_len: Option<u64>,
    /// What is read of the log, if anything is.
    pub log_bytes: Option<Seq<u8>>,
    /// The length of the event stream, if it can be opened.
    pub events_len: Option<u64>,
    /// What is read of the event stream, if anything is.
    pub events_bytes: Option<Seq<u8>>,
}

impl Collector {
    /// The files of one process were read: its log and, once the log names the session, its event
    /// stream.
    pub open spec fn after_reading(self, reading: Reading) -> Collector {
        let pid = reading.pid;
        let opened = self.log_begun(pid, reading.path, reading.log_len);
        let logged = match reading.log_bytes {
            Some(bytes) => opened.log_read(pid, bytes).0,
            None => opened,
        };
        if logged.events_path(pid) is Some {
            let streaming = logged.events_begun(pid, reading.events_len);
            match reading.events_bytes {
                Some(bytes) => streaming.events_read(pid, bytes).0,
                None => streaming,
            }
        } else {
            logged
        }
    }

    /// The files of these processes were read, one after the other.
    pub open spec fn after_readings(self, readings: Seq<Reading>) -> Collector
        decreases readings.len(),
    {
        if readings.len() == 0 {
            self
        } else {
            self.after_readings(readings.drop_last()).after_reading(readings.last())
        }
    }

    /// The log of the process is followed, under this path.
    pub open spec fn follows(self, pid: u32, path: Seq<u8>) -> bool {
        self.logs.contains_key(pid) && self.logs[pid].path == path
    }
}

/// The log whose reading begins is followed under its path, and stays so whatever is read.
pub proof fn law_log_is_followed_under_its_path(
    c: Collector,
    pid: u32,
    path: Seq<u8>,
    file_len: Option<u64>,
    other: u32,
    bytes: Seq<u8>,
)
    ensures
        c.log_begun(pid, path, file_len).follows(pid, path),
        c.follows(pid, path) ==> {
            &&& c.log_read(other, bytes).0.follows(pid, path)
            &&& c.events_begun(other, file_len).follows(pid, path)
            &&& c.events_read(other, bytes).0.follows(pid, path)
        },
{
}

proof fn lemma_after_reading(c: Collector, reading: Reading)
    requires
        c.is_consistent(),
    ensures
        c.after_reading(reading).is_consistent(),
        c.after_reading(reading).follows(reading.pid, reading.path),
        forall|pid: u32, path: Seq<u8>|
            pid != reading.pid && c.follows(pid, path) ==> #[trigger] c.after_reading(
                reading,
            ).follows(pid, path),
{
    let pid = reading.pid;
    let none = Set::<u32>::empty();
    let opened = c.log_begun(pid, reading.path, reading.log_len);
    let log_bytes = reading.log_bytes.unwrap_or(seq![]);
    let events_bytes = reading.events_bytes.unwrap_or(seq![]);
    law_collector_stays_consistent(
        c,
        c.home,
        false,
        None,
        pid,
        reading.path,
        reading.log_len,
        log_bytes,
        none,
    );
    law_collector_stays_consistent(
        opened,
        c.home,
        false,
        None,
        pid,
        reading.path,
        reading.log_len,
        log_bytes,
        none,
    );
    let logged = match reading.log_bytes {
        Some(bytes) => opened.log_read(pid, bytes).0,
        None => opened,
    };
    law_collector_stays_consistent(
        logged,
        c.home,
        false,
        None,
        pid,
        reading.path,
        reading.events_len,
        events_bytes,
        none,
    );
    law_collector_stays_consistent(
        logged.events_begun(pid, reading.events_len),
        c.home,
        false,
        None,
        pid,
        reading.path,
        reading.events_len,
        events_bytes,
        none,
    );
}

proof fn lemma_after_readings(c: Collector, readings: Seq<Reading>)
    requires
        c.is_consistent(),
        forall|i: int, j: int|
            0 <= i < j < readings.len() ==> (#[trigger] readings[i]).pid != (
            #[trigger] readings[j]).pid,
    ensures
        c.after_readings(readings).is_consistent(),
        forall|i: int|
            0 <= i < readings.len() ==> c.after_readings(readings).follows(
                (#[trigger] readings[i]).pid,
                readings[i].path,
            ),
    decreases readings.len(),
{
    if readings.len() > 0 {
        let earlier = readings.drop_last();
        lemma_after_readings(c, earlier);
        lemma_after_reading(c.after_readings(earlier), readings.last());
        assert forall|i: int| 0 <= i < readings.len() implies c.after_readings(readings).follows(
            (#[trigger] readings[i]).pid,
            readings[i].path,
        ) by {
            if i < earlier.len() {
                assert(earlier[i] == readings[i]);
                assert(readings[i].pid != readings[readings.len() - 1].pid);
            }
        }
    }
}

/// After a look at some processes, each with one log, the logs that are kept are exactly theirs,
/// each under its path, and every event stream that is kept has its log.
pub proof fn law_look_keeps_what_was_seen(
    c: Collector,
    slow_tick: bool,
    content: Option<Seq<char>>,
    readings: Seq<Reading>,
    seen: Seq<Observation>,
)
    requires
        c.is_consistent(),
        forall|i: int, j: int|
            0 <= i < j < readings.len() ==> (#[trigger] readings[i]).pid != (
            #[trigger] readings[j]).pid,
        seen.len() == readings.len(),
        forall|i: int| 0 <= i < seen.len() ==> (#[trigger] seen[i]).pid == readings[i].pid,
    ensures
        ({
            let kept = c.with_settings(slow_tick, content).after_readings(readings).only(
                seen_pids(seen),
            );
            &&& kept.is_consistent()
            &&& kept.logs.dom() == seen_pids(seen)
            &&& forall|i: int|
                0 <= i < readings.len() ==> kept.follows(
                    (#[trigger] readings[i]).pid,
                    readings[i].path,
                )
            &&& kept.events.dom().subset_of(kept.logs.dom())
        }),
{
    let pids = seen_pids(seen);
    let started = c.with_settings(slow_tick, content);
    let read = started.after_readings(readings);
    let kept = read.only(pids);
    assert(started.is_consistent());
    lemma_after_readings(started, readings);
    assert forall|i: int| 0 <= i < readings.len() implies kept.follows(
        (#[trigger] readings[i]).pid,
        readings[i].path,
    ) by {
        assert(seen[i].pid == readings[i].pid);
        assert(read.follows(readings[i].pid, readings[i].path));
    }
    assert forall|pid: u32| pids.contains(pid) implies read.logs.contains_key(pid) by {
        let i = choose|i: int| 0 <= i < seen.len() && (#[trigger] seen[i]).pid == pid;
        assert(read.follows(readings[i].pid, readings[i].path));
    }
    assert(kept.logs.dom() =~= pids);
    assert forall|pid: u32| #[trigger] kept.events.contains_key(pid) implies kept.logs.contains_key(
        pid,
    ) by {
        assert(read.events.contains_key(pid));
    }
}

/// Where the log of every process that was seen is known, the logs that are kept are exactly those
/// of the processes that were seen.
pub proof fn law_logs_kept_are_those_seen(c: Collector, seen: Seq<Observation>)
    requires
        forall|pid: u32| #[trigger] seen_pids(seen).contains(pid) ==> c.logs.contains_key(pid),
    ensures
        c.only(seen_pids(seen)).logs.dom() == seen_pids(seen),
{
    assert(c.only(seen_pids(seen)).logs.dom() =~= seen_pids(seen));
}

/// A setting that is known stays until a slow tick; then, and while it is not known, it is what the
/// file says.
pub proof fn law_known_settings_stay(c: Collector, content: Option<Seq<char>>)
    ensures
        c.cached_model.len() > 0 ==> c.with_settings(false, content).cached_model == c.cached_model,
        c.cached_effort.len() > 0 ==> c.with_settings(false, content).cached_effort
            == c.cached_effort,
        !c.needs_settings(false) ==> c.with_settings(false, content) == c,
        c.with_settings(true, content).cached_model == setting(content, "model"@),
        c.with_settings(true, content).cached_effort == setting(content, "effortLevel"@),
        c.cached_model.len() == 0 ==> c.with_settings(false, content).cached_model == setting(
            content,
            "model"@,
        ),
        c.cached_effort.len() == 0 ==> c.with_settings(false, content).cached_effort == setting(
            content,
            "effortLevel"@,
        ),
        forall|slow_tick: bool|
            {
                let after = #[trigger] c.with_settings(slow_tick, content);
                after.home == c.home && after.logs == c.logs && after.events == c.events
            },
        c.needs_settings(true),
        c.cached_model.len() == 0 || c.cached_effort.len() == 0 ==> c.needs_settings(false),
{
}

/// The directory of the CLI is shown as `~/.copilot`.
pub proof fn law_config_root(home: Seq<u8>)
    requires
        home.len() > 0,
    ensures
        config_root_of(home) == "~/.copilot"@,
{
    law_home_is_abbreviated(home, ".copilot"@);
    reveal_strlit("~/");
    reveal_strlit(".copilot");
    reveal_strlit("~/.copilot");
    assert("~/"@ + ".copilot"@ =~= "~/.copilot"@);
}

/// A collector that has seen nothing knows its home directory and nothing else.
pub proof fn law_fresh_collector_knows_nothing(home: Seq<u8>, pid: u32)
    ensures
        Collector::fresh(home).home == home,
        Collector::fresh(home).cached_model.len() == 0,
        Collector::fresh(home).cached_effort.len() == 0,
        !Collector::fresh(home).logs.contains_key(pid),
        !Collector::fresh(home).events.contains_key(pid),
        Collector::fresh(home).session_id(pid) is None,
{
}

/// The session of a process is the one that its log names; its event stream is kept in the
/// directory of the session; and what it adds up to is nothing before it is read.
pub proof fn law_log_names_session_and_stream(c: Collector, pid: u32)
    ensures
        c.session_id(pid) is Some <==> c.logs.contains_key(pid) && c.logs[pid].result.session_id.len()
            > 0,
        c.session_id(pid) matches Some(id) ==> id == c.logs[pid].result.session_id
            && c.events_path(pid) == Some(events_path_in(c.home, id)),
        c.session_id(pid) is None ==> c.events_path(pid) is None,
        c.events.contains_key(pid) ==> c.events_of(pid) == c.events[pid].result,
        !c.events.contains_key(pid) ==> c.events_of(pid) == EventsSummary::nothing(),
{
}

/// One more process that is seen adds its session, if its log names one, behind those of the
/// others; no process adds anything else.
pub proof fn law_each_process_adds_its_session(
    c: Collector,
    shared: SharedProcessData,
    seen: Seq<Observation>,
    next: Observation,
)
    ensures
        c.sessions(shared, Seq::<Observation>::empty()) == Seq::<Session>::empty(),
        c.logs.contains_key(next.pid) && c.logs[next.pid].result.session_id.len() > 0 ==> c.sessions(
            shared,
            seen.push(next),
        ) == c.sessions(shared, seen).push(
            session_of(
                c.logs[next.pid].result,
                c.events_of(next.pid),
                next,
                shared,
                c.cached_model,
                c.cached_effort,
                config_root_of(c.home),
            ),
        ),
        !c.logs.contains_key(next.pid) || c.logs[next.pid].result.session_id.len() == 0
            ==> c.sessions(shared, seen.push(next)) == c.sessions(shared, seen),
{
    assert(seen.push(next).drop_last() =~= seen);
}

/// A file that is followed is read on from where it was left, unless it is another file, or got
/// shorter: then it is read from the start. One that cannot be opened, or holds nothing new, is not
/// read.
pub proof fn law_file_is_followed<S: LineFold>(
    tails: Map<u32, Tail<S>>,
    pid: u32,
    path: Seq<u8>,
    n: u64,
)
    ensures
        !tails.contains_key(pid) || tails[pid].path != path ==> {
            &&& begun(tails, pid, path, None) == Tail::<S>::unread(path)
            &&& begun(tails, pid, path, Some(n)) == Tail::<S>::unread(path)
        },
        tails.contains_key(pid) && tails[pid].path == path ==> {
            &&& begun(tails, pid, path, None) == tails[pid]
            &&& n >= tails[pid].offset ==> begun(tails, pid, path, Some(n)) == tails[pid]
            &&& n < tails[pid].offset ==> begun(tails, pid, path, Some(n)) == Tail::<S>::unread(path)
        },
        ({
            let tail = begun(tails, pid, path, Some(n));
            &&& tail.offset <= n
            &&& tail.offset == n ==> read_from(tail, Some(n)) is None
            &&& tail.offset < n ==> read_from(tail, Some(n)) == Some(tail.offset)
            &&& read_from(tail, None) is None
        }),
{
}

/// What is done about the files of one process leaves what is known of the others, and what is done
/// about its log leaves all event streams and the other way round. Bytes are taken where the file is
/// followed, and make no difference elsewhere.
pub proof fn law_processes_do_not_meet(
    c: Collector,
    pid: u32,
    other: u32,
    path: Seq<u8>,
    file_len: Option<u64>,
    bytes: Seq<u8>,
)
    ensures
        ({
            let log_begun = c.log_begun(pid, path, file_len);
            let (log_read, log_taken) = c.log_read(pid, bytes);
            let events_begun = c.events_begun(pid, file_len);
            let (events_read, events_taken) = c.events_read(pid, bytes);
            &&& log_begun == Collector { logs: log_begun.logs, ..c }
            &&& log_read == Collector { logs: log_read.logs, ..c }
            &&& events_begun == Collector { events: events_begun.events, ..c }
            &&& events_read == Collector { events: events_read.events, ..c }
            &&& other != pid ==> {
                &&& log_begun.logs.contains_key(other) == c.logs.contains_key(other)
                &&& log_read.logs.contains_key(other) == c.logs.contains_key(other)
                &&& events_begun.events.contains_key(other) == c.events.contains_key(other)
                &&& events_read.events.contains_key(other) == c.events.contains_key(other)
                &&& log_begun.logs[other] == c.logs[other]
                &&& log_read.logs[other] == c.logs[other]
                &&& events_begun.events[other] == c.events[other]
                &&& events_read.events[other] == c.events[other]
            }
            &&& log_begun.logs.contains_key(pid) && log_begun.logs[pid] == begun(
                c.logs,
                pid,
                path,
                file_len,
            )
            &&& c.logs.contains_key(pid) ==> log_read.logs.contains_key(pid) && (
                log_read.logs[pid],
                log_taken,
            ) == c.logs[pid].after_bytes(bytes)
            &&& !c.logs.contains_key(pid) ==> log_taken && log_read == c
            &&& c.events_path(pid) matches Some(stream) ==> events_begun.events.contains_key(pid)
                && events_begun.events[pid] == begun(c.events, pid, stream, file_len)
            &&& c.events_path(pid) is None ==> events_begun == c
            &&& c.events.contains_key(pid) ==> events_read.events.contains_key(pid) && (
                events_read.events[pid],
                events_taken,
            ) == c.events[pid].after_bytes(bytes)
            &&& !c.events.contains_key(pid) ==> events_taken && events_read == c
        }),
{
}

/// A path whose last byte is no slash.
proof fn lemma_joined_ends(dir: Seq<u8>, name: Seq<char>)
    requires
        is_ascii_chars(name),
        name.len() > 0,
        name.last() != '/',
    ensures
        joined(dir, name).len() > 0,
        joined(dir, name).last() != 0x2F,
        encode_utf8(name).len() > 0,
        encode_utf8(name).last() != 0x2F,
{
    is_ascii_chars_encode_utf8(name);
    let bytes = encode_utf8(name);
    assert(bytes[name.len() - 1] == name[name.len() - 1] as u8);
    assert(is_ascii_chars(name) ==> (name.last() as u32) < 128);
    assert(joined(dir, name).last() == bytes.last());
}

/// The logs, the settings and the event streams lie in `.copilot` in the home directory, in
/// `logs`, `settings.json` and `session-state/{session}/events.jsonl`.
pub proof fn law_files_lie_in_the_home_directory(home: Seq<u8>, id: Seq<char>)
    requires
        home.len() > 0,
        home.last() != 0x2F,
        is_uuid_text(id),
    ensures
        ({
            let config = home.push(0x2F) + encode_utf8(".copilot"@);
            &&& config_dir(home) == config
            &&& logs_dir_in(home) == config.push(0x2F) + encode_utf8("logs"@)
            &&& settings_path_in(home) == config.push(0x2F) + encode_utf8("settings.json"@)
            &&& events_path_in(home, id) == ((config.push(0x2F) + encode_utf8(
                "session-state"@,
            )).push(0x2F) + encode_utf8(id)).push(0x2F) + encode_utf8("events.jsonl"@)
        }),
{
    reveal_strlit(".copilot");
    reveal_strlit("session-state");
    lemma_joined_ends(home, ".copilot"@);
    let config = config_dir(home);
    lemma_joined_ends(config, "session-state"@);
    let state = joined(config, "session-state"@);
    assert(is_ascii_chars(id)) by {
        assert forall|i: int| 0 <= i < id.len() implies (#[trigger] id[i] as u32) < 128 by {
            assert(id[i] == '-' || is_hex(id[i]));
        }
    }
    assert(is_hex(id[35]));
    lemma_joined_ends(state, id);
    let dir = joined(state, id);
    law_one_slash_joins(home, ".copilot"@);
    law_one_slash_joins(config, "logs"@);
    law_one_slash_joins(config, "settings.json"@);
    law_one_slash_joins(config, "session-state"@);
    law_one_slash_joins(state, id);
    law_one_slash_joins(dir, "events.jsonl"@);
}

} // verus!
