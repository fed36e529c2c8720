//! The process log of the CLI: one entry a line, `{timestamp} [{LEVEL}] {message}`.
use crate::decimal::{
    decimal, is_float, is_float_text, law_decimal_is_read_back, parse_unsigned, unsigned_value,
};
use crate::tail::{run, update_cache, LineFold, LineSink, TailCache};
use crate::text::{
    after_prefix, all_taken, before, before_char, chars_after_prefix, chars_are, chars_contain,
    chars_of, contains_text, find, find_char, find_text, first_word, first_word_chars, is_first,
    law_before_first_character, law_first_word_stands_between_white_space, law_prefix_is_cut_off,
    law_text_is_found_where_it_first_stands, law_trimming_takes_the_ends_off,
    lemma_after_prefix_before_return, lemma_find, lemma_find_before_return, lemma_find_char,
    lemma_find_char_is, lemma_find_is, lemma_first_word_before_return, lemma_trim_before_return,
    none_taken, occurs_at, reads_at, slice_from, slice_to, string_of, trim, trim_chars, Trim,
};
use vstd::prelude::*;
use vstd::slice::slice_subrange;

verus! {

/// What `chrono` reads the text as: the milliseconds since the Unix epoch of an RFC 3339 date and
/// time; `None` where it is none.
pub uninterp spec fn rfc3339_millis(text: Seq<char>) -> Option<i64>;

/// `chrono::DateTime::parse_from_rfc3339`, with the instant taken in milliseconds: whether and as
/// what a text parses depends on the text alone. The result is named; the calendar is not written
/// out.
#[verifier::external_body]
pub(crate) fn parse_rfc3339(text: &str) -> (r: Option<i64>)
    ensures
        r == rfc3339_millis(text@),
{
    match chrono::DateTime::parse_from_rfc3339(text) {
        Ok(instant) => Some(instant.timestamp_millis()),
        Err(_) => None,
    }
}

/// The time stamp that stands for what was parsed: milliseconds in 64 bits, 0 for no time.
pub open spec fn stamp(parsed: Option<i64>) -> u64 {
    match parsed {
        Some(millis) => millis as u64,
        None => 0,
    }
}

/// The time stamp that stands for what was parsed. An instant before the Unix epoch wraps around.
pub fn stamp_of(parsed: Option<i64>) -> (r: u64)
    ensures
        r == stamp(parsed),
        parsed matches Some(millis) ==> r == millis as u64,
        parsed is None ==> r == 0,
{
    match parsed {
        Some(millis) => #[verifier::truncate]
        (millis as u64),
        None => 0,
    }
}

/// The text in front of the first space; `None` where there is no space or nothing before it.
pub open spec fn timestamp_text(line: Seq<char>) -> Option<Seq<char>> {
    match find(line, seq![' ']) {
        Some(i) => if i > 0 {
            Some(line.take(i))
        } else {
            None
        },
        None => None,
    }
}

/// The time stamp of a log line, in milliseconds since the Unix epoch; 0 where it has none.
pub open spec fn timestamp_of(line: Seq<char>) -> u64 {
    match timestamp_text(line) {
        Some(text) => stamp(rfc3339_millis(text)),
        None => 0,
    }
}

/// Extracts the time stamp of a log line, in milliseconds since the Unix epoch.
pub fn parse_log_timestamp(line: &str) -> (r: u64)
    ensures
        r == timestamp_of(line@),
{
    let cs = chars_of(line);
    match find_char(cs.as_slice(), ' ') {
        Some(end) => {
            if end == 0 {
                return 0;
            }
            let text = string_of(slice_to(cs.as_slice(), end));
            stamp_of(parse_rfc3339(text.as_str()))
        },
        None => 0,
    }
}

/// The part of a log line behind the time stamp.
pub open spec fn behind_timestamp(line: Seq<char>) -> Seq<char> {
    match find(line, seq![' ']) {
        Some(i) => line.skip(i + 1),
        None => line,
    }
}

/// The message of a log line: what stands behind the time stamp and the level in brackets.
pub open spec fn message_of(line: Seq<char>) -> Seq<char> {
    let rest = behind_timestamp(line);
    if rest.len() > 0 && rest[0] == '[' {
        match find(rest, "] "@) {
            Some(i) => rest.skip(i + 2),
            None => rest,
        }
    } else {
        rest
    }
}

proof fn lemma_message_is_suffix(line: Seq<char>)
    ensures
        message_of(line).len() <= line.len(),
        message_of(line) == line.skip(line.len() - message_of(line).len()),
{
    reveal_strlit("] ");
    lemma_find_char(line, ' ');
    let rest = behind_timestamp(line);
    lemma_find(rest, "] "@);
    assert(rest =~= line.skip(line.len() - rest.len()));
    assert(message_of(line) =~= line.skip(line.len() - message_of(line).len()));
}

/// The message of a log line.
fn message_chars<'a>(cs: &'a [char]) -> (r: &'a [char])
    ensures
        r@ == message_of(cs@),
{
    proof {
        reveal_strlit("] ");
    }
    let rest: &[char] = match find_char(cs, ' ') {
        Some(i) => slice_from(cs, i + 1),
        None => cs,
    };
    if rest.len() > 0 && rest[0] == '[' {
        let close = chars_of("] ");
        if let Some(i) = find_text(rest, close.as_slice()) {
            return slice_from(rest, i + 2);
        }
    }
    rest
}

/// Strips the time stamp and the level off a log line.
pub fn strip_log_prefix<'a>(line: &'a str) -> (r: &'a str)
    ensures
        r@ == message_of(line@),
{
    let cs = chars_of(line);
    let message = message_chars(cs.as_slice());
    proof {
        lemma_message_is_suffix(line@);
    }
    let at: usize = cs.len() - message.len();
    assert(line@.subrange(at as int, line@.len() as int) =~= line@.skip(at as int));
    line.substring_char(at, cs.len())
}

/// A hexadecimal digit.
pub open spec fn is_hex(c: char) -> bool {
    '0' <= c <= '9' || 'a' <= c <= 'f' || 'A' <= c <= 'F'
}

/// The places of the hyphens in a UUID.
pub open spec fn is_hyphen_place(i: int) -> bool {
    i == 8 || i == 13 || i == 18 || i == 23
}

/// Groups of 8, 4, 4, 4 and 12 hexadecimal digits, with hyphens between them.
pub open spec fn is_uuid_text(s: Seq<char>) -> bool {
    &&& s.len() == 36
    &&& forall|i: int|
        0 <= i < 36 ==> if is_hyphen_place(i) {
            #[trigger] s[i] == '-'
        } else {
            is_hex(s[i])
        }
}

/// Whether the characters look like a UUID.
fn uuid_chars(cs: &[char]) -> (r: bool)
    ensures
        r == is_uuid_text(cs@),
{
    if cs.len() != 36 {
        return false;
    }
    let mut i: usize = 0;
    while i < 36
        invariant
            i <= 36,
            cs@.len() == 36,
            forall|k: int|
                0 <= k < i ==> if is_hyphen_place(k) {
                    #[trigger] cs@[k] == '-'
                } else {
                    is_hex(cs@[k])
                },
        decreases 36 - i,
    {
        let c: char = cs[i];
        let good = if i == 8 || i == 13 || i == 18 || i == 23 {
            c == '-'
        } else {
            ('0' <= c && c <= '9') || ('a' <= c && c <= 'f') || ('A' <= c && c <= 'F')
        };
        if !good {
            assert(cs@[i as int] == c);
            return false;
        }
        i += 1;
    }
    true
}

/// Whether the text looks like a UUID.
pub fn is_uuid(s: &str) -> (r: bool)
    ensures
        r == is_uuid_text(s@),
{
    let cs = chars_of(s);
    uuid_chars(cs.as_slice())
}

/// What a process log says.
pub struct LogResult {
    /// The session; empty before it is known.
    pub session_id: String,
    /// The version of the CLI.
    pub version: String,
    /// The title of the session.
    pub session_name: String,
    /// The git repository, as owner and name.
    pub repository: String,
    /// How full the context is in percent, as the literal in the log; empty before the first.
    pub context_pct: String,
    /// The tokens in the context.
    pub context_tokens: u64,
    /// The size of the context window in tokens.
    pub context_window: u64,
    /// The number of requests sent to the model.
    pub turn_count: u32,
    /// A request was sent and has not ended.
    pub model_generating: bool,
    /// When the last request was sent, in milliseconds since the Unix epoch.
    pub thinking_since_ms: u64,
    /// The first time stamp.
    pub started_at_ms: u64,
    /// The last time stamp.
    pub last_event_ms: u64,
}

/// The mathematical view of a `LogResult`, with a counter that has no limit.
pub struct LogSummary {
    pub session_id: Seq<char>,
    pub version: Seq<char>,
    pub session_name: Seq<char>,
    pub repository: Seq<char>,
    pub context_pct: Seq<char>,
    pub context_tokens: u64,
    pub context_window: u64,
    pub turn_count: nat,
    pub model_generating: bool,
    pub thinking_since_ms: u64,
    pub started_at_ms: u64,
    pub last_event_ms: u64,
}

impl View for LogResult {
    type V = LogSummary;

    open spec fn view(&self) -> LogSummary {
        LogSummary {
            session_id: self.session_id@,
            version: self.version@,
            session_name: self.session_name@,
            repository: self.repository@,
            context_pct: self.context_pct@,
            context_tokens: self.context_tokens,
            context_window: self.context_window,
            turn_count: self.turn_count as nat,
            model_generating: self.model_generating,
            thinking_since_ms: self.thinking_since_ms,
            started_at_ms: self.started_at_ms,
            last_event_ms: self.last_event_ms,
        }
    }
}

/// The percentage in a utilization report: the literal in front of the first percent sign.
pub open spec fn reported_percentage(rest: Seq<char>) -> Option<Seq<char>> {
    match find(rest, seq!['%']) {
        Some(i) => {
            let literal = trim(rest.take(i), Trim::White);
            if is_float(literal) {
                Some(literal)
            } else {
                None
            }
        },
        None => None,
    }
}

/// The parentheses of a utilization report are in order: the first that closes does not stand in
/// front of the first that opens.
pub open spec fn parentheses_in_order(rest: Seq<char>) -> bool {
    match (find(rest, seq!['(']), find(rest, seq![')'])) {
        (Some(open), Some(close)) => open < close,
        _ => true,
    }
}

/// The text between the first parentheses of a utilization report.
pub open spec fn in_parentheses(rest: Seq<char>) -> Option<Seq<char>> {
    match (find(rest, seq!['(']), find(rest, seq![')'])) {
        (Some(open), Some(close)) => if open < close {
            Some(rest.subrange(open + 1, close))
        } else {
            None
        },
        _ => None,
    }
}

/// Used and total tokens in `{used}/{total} tokens`, with one slash.
pub open spec fn used_and_total(inner: Seq<char>) -> Option<(u64, u64)> {
    match find(inner, seq!['/']) {
        Some(i) => {
            let used = trim(inner.take(i), Trim::White);
            let behind = inner.skip(i + 1);
            let total = first_word(behind);
            match (unsigned_value(used, u64::MAX as nat), unsigned_value(total, u64::MAX as nat)) {
                (Some(u), Some(t)) => if find(behind, seq!['/']) is None {
                    Some((u as u64, t as u64))
                } else {
                    None
                },
                _ => None,
            }
        },
        None => None,
    }
}

/// The tokens in a utilization report.
pub open spec fn reported_tokens(rest: Seq<char>) -> Option<(u64, u64)> {
    match in_parentheses(rest) {
        Some(inner) => used_and_total(inner),
        None => None,
    }
}

/// The repository in a session indexing message.
pub open spec fn reported_repository(message: Seq<char>) -> Option<Seq<char>> {
    match find(message, "repository="@) {
        Some(i) => {
            let name = trim(
                before(message.skip(i + "repository="@.len()), ','),
                Trim::White,
            );
            if name.len() > 0 && name != "undefined"@ {
                Some(name)
            } else {
                None
            }
        },
        None => None,
    }
}

/// The message says that a request is sent to the model: it is none of the messages that start
/// with a fixed text, and holds the mark of a request.
pub open spec fn is_request(message: Seq<char>) -> bool {
    &&& !"Workspace initialized: "@.is_prefix_of(message)
    &&& !"Starting Copilot CLI: "@.is_prefix_of(message)
    &&& !"Session named: "@.is_prefix_of(message)
    &&& !"Session indexing debug:"@.is_prefix_of(message)
    &&& !"CompactionProcessor: Utilization "@.is_prefix_of(message)
    &&& contains_text(message, "--- Start of group: Sending request to the AI model ---"@)
}

impl LogSummary {
    /// What no line says.
    pub open spec fn nothing() -> LogSummary {
        LogSummary {
            session_id: seq![],
            version: seq![],
            session_name: seq![],
            repository: seq![],
            context_pct: seq![],
            context_tokens: 0,
            context_window: 0,
            turn_count: 0,
            model_generating: false,
            thinking_since_ms: 0,
            started_at_ms: 0,
            last_event_ms: 0,
        }
    }

    /// A time stamp, if there is one, is the last; the first of them is the start.
    pub open spec fn stamped(self, ts_ms: u64) -> LogSummary {
        if ts_ms > 0 {
            LogSummary {
                started_at_ms: if self.started_at_ms == 0 {
                    ts_ms
                } else {
                    self.started_at_ms
                },
                last_event_ms: ts_ms,
                ..self
            }
        } else {
            self
        }
    }

    /// A utilization report, such as `22.3% (28516/128000 tokens) below threshold 80%`.
    pub open spec fn after_utilization(self, rest: Seq<char>) -> LogSummary {
        LogSummary {
            context_pct: match reported_percentage(rest) {
                Some(literal) => literal,
                None => self.context_pct,
            },
            context_tokens: match reported_tokens(rest) {
                Some((used, _)) => used,
                None => self.context_tokens,
            },
            context_window: match reported_tokens(rest) {
                Some((_, total)) => total,
                None => self.context_window,
            },
            ..self
        }
    }

    /// One more message, logged at `ts_ms`.
    pub open spec fn after_message(self, message: Seq<char>, ts_ms: u64) -> LogSummary {
        if let Some(rest) = after_prefix(message, "Workspace initialized: "@) {
            if self.session_id.len() == 0 && is_uuid_text(first_word(rest)) {
                LogSummary { session_id: first_word(rest), ..self }
            } else {
                self
            }
        } else if let Some(rest) = after_prefix(message, "Starting Copilot CLI: "@) {
            LogSummary { version: trim(rest, Trim::White), ..self }
        } else if let Some(rest) = after_prefix(message, "Session named: "@) {
            LogSummary { session_name: trim(trim(rest, Trim::White), Trim::Quote), ..self }
        } else if "Session indexing debug:"@.is_prefix_of(message) {
            match reported_repository(message) {
                Some(name) => LogSummary { repository: name, ..self },
                None => self,
            }
        } else if let Some(rest) = after_prefix(message, "CompactionProcessor: Utilization "@) {
            self.after_utilization(rest)
        } else if contains_text(
            message,
            "--- Start of group: Sending request to the AI model ---"@,
        ) {
            LogSummary {
                turn_count: self.turn_count + 1,
                model_generating: true,
                thinking_since_ms: ts_ms,
                ..self
            }
        } else if contains_text(message, "--- End of group ---"@) {
            LogSummary { model_generating: false, ..self }
        } else {
            self
        }
    }

    /// One more line, logged at `ts_ms`.
    pub open spec fn after_entry(self, line: Seq<char>, ts_ms: u64) -> LogSummary {
        self.stamped(ts_ms).after_message(message_of(line), ts_ms)
    }

    /// One more line.
    pub open spec fn after_line(self, line: Seq<char>) -> LogSummary {
        self.after_entry(line, timestamp_of(line))
    }

    /// The line can be taken: the counter still fits, and a utilization report has its
    /// parentheses in order.
    pub open spec fn can_take(self, line: Seq<char>) -> bool {
        &&& is_request(message_of(line)) ==> self.turn_count < u32::MAX
        &&& match after_prefix(message_of(line), "CompactionProcessor: Utilization "@) {
            Some(rest) => parentheses_in_order(rest),
            None => true,
        }
    }
}

impl Default for LogResult {
    fn default() -> (r: Self)
        ensures
            r@ == LogSummary::nothing(),
            r.session_id@.len() == 0 && r.version@.len() == 0 && r.session_name@.len() == 0,
            r.repository@.len() == 0 && r.context_pct@.len() == 0,
            r.context_tokens == 0 && r.context_window == 0 && r.turn_count == 0,
            !r.model_generating && r.thinking_since_ms == 0,
            r.started_at_ms == 0 && r.last_event_ms == 0,
    {
        LogResult {
            session_id: String::new(),
            version: String::new(),
            session_name: String::new(),
            repository: String::new(),
            context_pct: String::new(),
            context_tokens: 0,
            context_window: 0,
            turn_count: 0,
            model_generating: false,
            thinking_since_ms: 0,
            started_at_ms: 0,
            last_event_ms: 0,
        }
    }
}

/// The percentage in a utilization report.
fn percentage(rest: &[char]) -> (r: Option<String>)
    ensures
        match r {
            Some(s) => reported_percentage(rest@) == Some(s@),
            None => reported_percentage(rest@) is None,
        },
{
    match find_char(rest, '%') {
        Some(i) => {
            let literal = trim_chars(slice_to(rest, i), Trim::White);
            if is_float_text(literal) {
                Some(string_of(literal))
            } else {
                None
            }
        },
        None => None,
    }
}

/// Used and total tokens.
fn tokens(inner: &[char]) -> (r: Option<(u64, u64)>)
    ensures
        r == used_and_total(inner@),
{
    match find_char(inner, '/') {
        Some(i) => {
            let used = trim_chars(slice_to(inner, i), Trim::White);
            let behind = slice_from(inner, i + 1);
            let total = first_word_chars(behind);
            if find_char(behind, '/').is_some() {
                return None;
            }
            match (parse_unsigned(used, u64::MAX), parse_unsigned(total, u64::MAX)) {
                (Some(u), Some(t)) => Some((u, t)),
                _ => None,
            }
        },
        None => None,
    }
}

/// Folds a utilization report into the result.
fn utilization(rest: &[char], result: &mut LogResult)
    requires
        parentheses_in_order(rest@),
    ensures
        final(result)@ == old(result)@.after_utilization(rest@),
{
    if let Some(literal) = percentage(rest) {
        result.context_pct = literal;
    }
    if let (Some(open), Some(close)) = (find_char(rest, '('), find_char(rest, ')')) {
        if let Some((used, total)) = tokens(slice_subrange(rest, open + 1, close)) {
            result.context_tokens = used;
            result.context_window = total;
        }
    }
}

/// Parses a utilization report, such as `22.3% (28516/128000 tokens) below threshold 80%`.
pub fn parse_compaction_line(rest: &str, result: &mut LogResult)
    requires
        parentheses_in_order(rest@),
    ensures
        final(result)@ == old(result)@.after_utilization(rest@),
{
    let cs = chars_of(rest);
    utilization(cs.as_slice(), result);
}

/// The repository in a session indexing message.
fn repository(message: &[char]) -> (r: Option<String>)
    ensures
        match r {
            Some(s) => reported_repository(message@) == Some(s@),
            None => reported_repository(message@) is None,
        },
{
    let mark = chars_of("repository=");
    match find_text(message, mark.as_slice()) {
        Some(i) => {
            let behind = slice_from(message, i + mark.len());
            let name = trim_chars(before_char(behind, ','), Trim::White);
            if name.len() > 0 && !chars_are(name, "undefined") {
                Some(string_of(name))
            } else {
                None
            }
        },
        None => None,
    }
}

/// Folds a message, logged at `ts_ms`, into the result.
fn message(msg: &[char], ts_ms: u64, result: &mut LogResult)
    requires
        is_request(msg@) ==> old(result).turn_count < u32::MAX,
        after_prefix(msg@, "CompactionProcessor: Utilization "@) matches Some(rest)
            ==> parentheses_in_order(rest),
    ensures
        final(result)@ == old(result)@.after_message(msg@, ts_ms),
{
    if let Some(rest) = chars_after_prefix(msg, "Workspace initialized: ") {
        let id = first_word_chars(rest);
        if result.session_id.as_str().is_empty() && uuid_chars(id) {
            result.session_id = string_of(id);
        }
        return;
    }
    if let Some(rest) = chars_after_prefix(msg, "Starting Copilot CLI: ") {
        result.version = string_of(trim_chars(rest, Trim::White));
        return;
    }
    if let Some(rest) = chars_after_prefix(msg, "Session named: ") {
        result.session_name = string_of(trim_chars(trim_chars(rest, Trim::White), Trim::Quote));
        return;
    }
    if chars_after_prefix(msg, "Session indexing debug:").is_some() {
        if let Some(name) = repository(msg) {
            result.repository = name;
        }
        return;
    }
    if let Some(rest) = chars_after_prefix(msg, "CompactionProcessor: Utilization ") {
        utilization(rest, result);
        return;
    }
    if chars_contain(msg, "--- Start of group: Sending request to the AI model ---") {
        result.turn_count = result.turn_count + 1;
        result.model_generating = true;
        result.thinking_since_ms = ts_ms;
        return;
    }
    if chars_contain(msg, "--- End of group ---") {
        result.model_generating = false;
    }
}

/// Folds a line, logged at `ts_ms`, into the result.
pub fn apply_log_line(line: &str, ts_ms: u64, result: &mut LogResult)
    requires
        old(result)@.can_take(line@),
    ensures
        final(result)@ == old(result)@.after_entry(line@, ts_ms),
{
    if ts_ms > 0 {
        if result.started_at_ms == 0 {
            result.started_at_ms = ts_ms;
        }
        result.last_event_ms = ts_ms;
    }
    let cs = chars_of(line);
    message(message_chars(cs.as_slice()), ts_ms, result);
}

/// Parses one line of the log and folds it into the result.
pub fn parse_log_line(line: &str, result: &mut LogResult)
    requires
        old(result)@.can_take(line@),
    ensures
        final(result)@ == old(result)@.after_line(line@),
{
    let ts_ms: u64 = parse_log_timestamp(line);
    apply_log_line(line, ts_ms, result);
}

/// Whether the message says that a request is sent to the model.
fn request(msg: &[char]) -> (r: bool)
    ensures
        r == is_request(msg@),
{
    chars_after_prefix(msg, "Workspace initialized: ").is_none() && chars_after_prefix(
        msg,
        "Starting Copilot CLI: ",
    ).is_none() && chars_after_prefix(msg, "Session named: ").is_none() && chars_after_prefix(
        msg,
        "Session indexing debug:",
    ).is_none() && chars_after_prefix(msg, "CompactionProcessor: Utilization ").is_none()
        && chars_contain(msg, "--- Start of group: Sending request to the AI model ---")
}

/// Whether the line can be taken.
pub fn can_take_line(line: &str, result: &LogResult) -> (r: bool)
    ensures
        r == result@.can_take(line@),
{
    let cs = chars_of(line);
    let msg = message_chars(cs.as_slice());
    if result.turn_count == u32::MAX && request(msg) {
        return false;
    }
    if let Some(rest) = chars_after_prefix(msg, "CompactionProcessor: Utilization ") {
        if let (Some(open), Some(close)) = (find_char(rest, '('), find_char(rest, ')')) {
            return open < close;
        }
    }
    true
}

/// Parses one line of the log and folds it into the result, unless it cannot be taken: then it
/// answers `false` and changes nothing.
pub fn checked_parse_log_line(line: &str, result: &mut LogResult) -> (r: bool)
    ensures
        r == old(result)@.can_take(line@),
        r ==> final(result)@ == old(result)@.after_line(line@),
        !r ==> final(result)@ == old(result)@,
{
    if can_take_line(line, result) {
        parse_log_line(line, result);
        true
    } else {
        false
    }
}

/// How far a process log has been read.
pub type LogCache = TailCache<LogResult>;

/// The texts that are searched for in a log line: none is empty or holds a carriage return.
proof fn lemma_marks()
    ensures
        forall|c: char| c != '\r' ==> !(#[trigger] seq![c]).contains('\r'),
        is_mark("] "@),
        is_mark("Workspace initialized: "@),
        is_mark("Starting Copilot CLI: "@),
        is_mark("Session named: "@),
        is_mark("Session indexing debug:"@),
        is_mark("repository="@),
        is_mark("CompactionProcessor: Utilization "@),
        is_mark("--- Start of group: Sending request to the AI model ---"@),
        is_mark("--- End of group ---"@),
{
    reveal_strlit("] ");
    reveal_strlit("Workspace initialized: ");
    reveal_strlit("Starting Copilot CLI: ");
    reveal_strlit("Session named: ");
    reveal_strlit("Session indexing debug:");
    reveal_strlit("repository=");
    reveal_strlit("CompactionProcessor: Utilization ");
    reveal_strlit("--- Start of group: Sending request to the AI model ---");
    reveal_strlit("--- End of group ---");
}

/// A text that is not empty and holds no carriage return.
spec fn is_mark(s: Seq<char>) -> bool {
    s.len() > 0 && !s.contains('\r')
}

proof fn lemma_message_before_return(line: Seq<char>)
    ensures
        message_of(line.push('\r')) == message_of(line).push('\r'),
        timestamp_of(line.push('\r')) == timestamp_of(line),
{
    lemma_marks();
    reveal_strlit("] ");
    let r = line.push('\r');
    lemma_find_before_return(line, seq![' ']);
    lemma_find_char(line, ' ');
    if let Some(i) = find(line, seq![' ']) {
        assert(r.take(i) =~= line.take(i));
        assert(r.skip(i + 1) =~= line.skip(i + 1).push('\r'));
    }
    let rest = behind_timestamp(line);
    assert(behind_timestamp(r) == rest.push('\r'));
    lemma_find_before_return(rest, "] "@);
    lemma_find(rest, "] "@);
    if let Some(i) = find(rest, "] "@) {
        assert(rest.push('\r').skip(i + 2) =~= rest.skip(i + 2).push('\r'));
    }
}

proof fn lemma_utilization_before_return(s: LogSummary, rest: Seq<char>)
    ensures
        s.after_utilization(rest.push('\r')) == s.after_utilization(rest),
        parentheses_in_order(rest.push('\r')) == parentheses_in_order(rest),
{
    lemma_marks();
    let r = rest.push('\r');
    lemma_find_before_return(rest, seq!['%']);
    lemma_find_before_return(rest, seq!['(']);
    lemma_find_before_return(rest, seq![')']);
    lemma_find_char(rest, '%');
    lemma_find_char(rest, '(');
    lemma_find_char(rest, ')');
    if let Some(i) = find(rest, seq!['%']) {
        assert(r.take(i) =~= rest.take(i));
    }
    if let (Some(open), Some(close)) = (find(rest, seq!['(']), find(rest, seq![')'])) {
        if open < close {
            assert(r.subrange(open + 1, close) =~= rest.subrange(open + 1, close));
        }
    }
}

proof fn lemma_repository_before_return(message: Seq<char>)
    ensures
        reported_repository(message.push('\r')) == reported_repository(message),
{
    lemma_marks();
    let mark = "repository="@;
    lemma_find_before_return(message, mark);
    lemma_find(message, mark);
    if let Some(i) = find(message, mark) {
        let behind = message.skip(i + mark.len());
        assert(message.push('\r').skip(i + mark.len()) =~= behind.push('\r'));
        lemma_find_before_return(behind, seq![',']);
        lemma_find_char(behind, ',');
        match find(behind, seq![',']) {
            Some(k) => {
                assert(behind.push('\r').take(k) =~= behind.take(k));
            },
            None => {
                lemma_trim_before_return(behind);
            },
        }
    }
}

proof fn lemma_after_message_before_return(s: LogSummary, message: Seq<char>, ts_ms: u64)
    ensures
        s.after_message(message.push('\r'), ts_ms) == s.after_message(message, ts_ms),
        is_request(message.push('\r')) == is_request(message),
{
    lemma_marks();
    lemma_find_before_return(message, "Workspace initialized: "@);
    lemma_find_before_return(message, "Starting Copilot CLI: "@);
    lemma_find_before_return(message, "Session named: "@);
    lemma_find_before_return(message, "Session indexing debug:"@);
    lemma_find_before_return(message, "CompactionProcessor: Utilization "@);
    lemma_find_before_return(
        message,
        "--- Start of group: Sending request to the AI model ---"@,
    );
    lemma_find_before_return(message, "--- End of group ---"@);
    lemma_after_prefix_before_return(message, "Workspace initialized: "@);
    lemma_after_prefix_before_return(message, "Starting Copilot CLI: "@);
    lemma_after_prefix_before_return(message, "Session named: "@);
    lemma_after_prefix_before_return(message, "CompactionProcessor: Utilization "@);
    lemma_repository_before_return(message);
    if let Some(rest) = after_prefix(message, "Workspace initialized: "@) {
        lemma_first_word_before_return(rest);
    }
    if let Some(rest) = after_prefix(message, "Starting Copilot CLI: "@) {
        lemma_trim_before_return(rest);
    }
    if let Some(rest) = after_prefix(message, "Session named: "@) {
        lemma_trim_before_return(rest);
    }
    if let Some(rest) = after_prefix(message, "CompactionProcessor: Utilization "@) {
        lemma_utilization_before_return(s, rest);
    }
}

impl LineFold for LogSummary {
    open spec fn start() -> Self {
        LogSummary::nothing()
    }

    open spec fn step(self, line: Seq<char>) -> Option<Self> {
        if self.can_take(line) {
            Some(self.after_line(line))
        } else {
            None
        }
    }

    proof fn empty_line_adds_nothing(self) {
        let line = Seq::<char>::empty();
        lemma_marks();
        lemma_find_char(line, ' ');
        assert(message_of(line) == line);
        assert(timestamp_of(line) == 0);
        assert forall|mark: Seq<char>| is_mark(mark) implies !contains_text(line, mark)
            && !mark.is_prefix_of(line) by {}
    }

    proof fn return_makes_no_difference(self, line: Seq<char>) {
        let message = message_of(line);
        let ts_ms = timestamp_of(line);
        lemma_message_before_return(line);
        lemma_after_message_before_return(self.stamped(ts_ms), message, ts_ms);
        lemma_marks();
        lemma_after_prefix_before_return(message, "CompactionProcessor: Utilization "@);
        if let Some(rest) = after_prefix(message, "CompactionProcessor: Utilization "@) {
            lemma_utilization_before_return(self, rest);
        }
    }
}

impl LineSink for LogResult {
    type Summary = LogSummary;

    open spec fn summary(&self) -> LogSummary {
        self@
    }

    fn fresh() -> (r: Self) {
        LogResult::default()
    }

    fn take_line(&mut self, line: &str) -> (r: bool) {
        checked_parse_log_line(line, self)
    }
}

/// Brings the cache up to date with a log of this content; `None` where the file cannot be read.
/// Answers whether all new complete lines were taken.
pub fn update_log_cache(cache: &mut LogCache, content: Option<&[u8]>) -> (r: bool)
    ensures
        match content {
            Some(bytes) => (final(cache)@, r) == old(cache)@.after_update(bytes@),
            None => r && final(cache)@ == old(cache)@,
        },
{
    update_cache(cache, content)
}

/// What always holds of a log that was read: the session is unknown or a UUID, and there is a
/// first time stamp exactly when there is a last one.
pub open spec fn log_invariant(s: LogSummary) -> bool {
    &&& s.session_id.len() > 0 ==> is_uuid_text(s.session_id)
    &&& s.started_at_ms == 0 <==> s.last_event_ms == 0
    &&& s.model_generating ==> s.turn_count > 0
}

/// Whatever the lines are, the session is unknown or a UUID, a start is known exactly when some
/// time stamp is, and the model generates only after a request was sent.
pub proof fn law_log_invariant(s: LogSummary, lines: Seq<Seq<char>>)
    requires
        log_invariant(s),
    ensures
        log_invariant(LogSummary::nothing()),
        log_invariant(run(s, lines).0),
    decreases lines.len(),
{
    if lines.len() > 0 {
        if let Some(next) = s.step(lines[0]) {
            law_log_invariant(next, lines.drop_first());
        }
    }
}

/// The session and the start, once known, never change, and turns are only ever added.
pub proof fn law_first_session_and_start_stay(s: LogSummary, lines: Seq<Seq<char>>)
    ensures
        s.session_id.len() > 0 ==> run(s, lines).0.session_id == s.session_id,
        s.started_at_ms > 0 ==> run(s, lines).0.started_at_ms == s.started_at_ms,
        s.turn_count <= run(s, lines).0.turn_count,
    decreases lines.len(),
{
    if lines.len() > 0 {
        if let Some(next) = s.step(lines[0]) {
            law_first_session_and_start_stay(next, lines.drop_first());
        }
    }
}

/// The first time stamp in the lines; 0 where there is none.
pub open spec fn first_stamp(lines: Seq<Seq<char>>) -> u64
    decreases lines.len(),
{
    if lines.len() == 0 {
        0
    } else if timestamp_of(lines[0]) > 0 {
        timestamp_of(lines[0])
    } else {
        first_stamp(lines.drop_first())
    }
}

/// The last time stamp in the lines; 0 where there is none.
pub open spec fn last_stamp(lines: Seq<Seq<char>>) -> u64
    decreases lines.len(),
{
    if lines.len() == 0 {
        0
    } else if last_stamp(lines.drop_first()) > 0 {
        last_stamp(lines.drop_first())
    } else {
        timestamp_of(lines[0])
    }
}

/// The number of requests in the lines.
pub open spec fn requests_in(lines: Seq<Seq<char>>) -> nat
    decreases lines.len(),
{
    if lines.len() == 0 {
        0
    } else {
        requests_in(lines.drop_first()) + if is_request(message_of(lines[0])) {
            1nat
        } else {
            0nat
        }
    }
}

/// The session started at the first time stamp of its log, the last event was at the last one,
/// and there is one turn for each request.
pub proof fn law_stamps_and_requests_add_up(s: LogSummary, lines: Seq<Seq<char>>)
    requires
        run(s, lines).1,
    ensures
        run(s, lines).0.started_at_ms == if s.started_at_ms > 0 {
            s.started_at_ms
        } else {
            first_stamp(lines)
        },
        run(s, lines).0.last_event_ms == if last_stamp(lines) > 0 {
            last_stamp(lines)
        } else {
            s.last_event_ms
        },
        run(s, lines).0.turn_count == s.turn_count + requests_in(lines),
    decreases lines.len(),
{
    if lines.len() > 0 {
        law_stamps_and_requests_add_up(s.step(lines[0])->0, lines.drop_first());
    }
}

/// An instant is its number of milliseconds; one before the Unix epoch is counted down from the
/// top; what is no instant is 0.
pub proof fn law_stamps_count_milliseconds(millis: i64)
    ensures
        millis >= 0 ==> stamp(Some(millis)) == millis,
        millis < 0 ==> stamp(Some(millis)) == millis + 0x1_0000_0000_0000_0000,
        stamp(None) == 0,
{
    let wrapped = millis as u64;
    if millis < 0 {
        assert(wrapped == millis + 0x1_0000_0000_0000_0000) by (bit_vector)
            requires
                wrapped == millis as u64,
                millis < 0,
        ;
    }
}

/// What stands in front of the first blank is the time stamp; a line without a blank or with one at
/// its start has none.
pub proof fn law_time_stamp_stands_in_front(head: Seq<char>, rest: Seq<char>)
    requires
        !head.contains(' '),
    ensures
        head.len() > 0 ==> timestamp_of(head.push(' ') + rest) == (match rfc3339_millis(head) {
            Some(millis) => millis as u64,
            None => 0,
        }),
        timestamp_of(head) == 0,
        timestamp_of(seq![' '] + rest) == 0,
{
    let line = head.push(' ') + rest;
    let late = seq![' '] + rest;
    lemma_first_char(head, ' ', rest);
    lemma_find_char(head, ' ');
    assert(late[0] == ' ');
    lemma_find_char_is(late, ' ', 0);
    assert(line.take(head.len() as int) =~= head);
}

/// The first such character stands behind a text without one.
proof fn lemma_first_char(a: Seq<char>, c: char, b: Seq<char>)
    requires
        !a.contains(c),
    ensures
        find(a.push(c) + b, seq![c]) == Some(a.len() as int),
{
    let s = a.push(c) + b;
    assert(s[a.len() as int] == c);
    assert forall|j: int| 0 <= j < a.len() implies s[j] != c by {
        assert(a[j] == s[j]);
        assert(a.contains(a[j]));
    }
    lemma_find_char_is(s, c, a.len() as int);
}

/// The level ends at the first bracket that closes.
proof fn lemma_level_ends(level: Seq<char>, message: Seq<char>)
    requires
        !level.contains(']'),
    ensures
        ({
            let rest = seq!['['] + level + seq![']', ' '] + message;
            &&& find(rest, seq![']', ' ']) == Some(level.len() as int + 1)
            &&& rest.skip(level.len() as int + 3) == message
        }),
{
    let close = seq![']', ' '];
    let rest = seq!['['] + level + close + message;
    let at = level.len() as int + 1;
    assert(rest.subrange(at, at + 2) =~= close);
    assert forall|j: int| 0 <= j < at implies !occurs_at(rest, close, j) by {
        if occurs_at(rest, close, j) {
            assert(rest.subrange(j, j + 2)[0] == rest[j]);
            assert(rest[j] == ']');
            assert(level[j - 1] == ']');
        }
    }
    assert(is_first(rest, close, at));
    lemma_find_is(rest, close, at);
    assert(rest.skip(at + 2) =~= message);
}

/// No level ends where there is no blank.
proof fn lemma_no_level_ends(head: Seq<char>)
    requires
        !head.contains(' '),
    ensures
        find(head, seq![']', ' ']) is None,
{
    let close = seq![']', ' '];
    lemma_find(head, close);
    if let Some(i) = find(head, close) {
        assert(head.subrange(i, i + 2)[1] == head[i + 1]);
    }
}

/// The message is what stands behind the time stamp and the level in brackets. Without a level, it
/// is all that stands behind the time stamp; without a time stamp, it is the whole line.
pub proof fn law_message_stands_behind_the_level(
    head: Seq<char>,
    level: Seq<char>,
    message: Seq<char>,
)
    requires
        !head.contains(' '),
        !level.contains(']'),
    ensures
        message_of(head.push(' ') + (seq!['['] + level + seq![']', ' '] + message)) == message,
        message.len() == 0 || message[0] != '[' ==> message_of(head.push(' ') + message) == message,
        !contains_text(message, seq![']', ' ']) ==> message_of(head.push(' ') + message) == message,
        message_of(head) == head,
{
    reveal_strlit("] ");
    assert("] "@ =~= seq![']', ' ']);
    let rest = seq!['['] + level + seq![']', ' '] + message;
    lemma_behind_timestamp(head, rest);
    lemma_behind_timestamp(head, message);
    lemma_level_ends(level, message);
    assert(rest[0] == '[');
    lemma_no_level_ends(head);
    lemma_find(message, "] "@);
}

proof fn lemma_behind_timestamp(head: Seq<char>, rest: Seq<char>)
    requires
        !head.contains(' '),
    ensures
        behind_timestamp(head.push(' ') + rest) == rest,
        behind_timestamp(head) == head,
{
    lemma_first_char(head, ' ', rest);
    lemma_find_char(head, ' ');
    assert((head.push(' ') + rest).skip(head.len() as int + 1) =~= rest);
}

/// Every character is a hexadecimal digit.
pub open spec fn all_hex(s: Seq<char>) -> bool {
    forall|i: int|
        0 <= i < s.len() ==> {
            ||| '0' <= #[trigger] s[i] <= '9'
            ||| 'a' <= s[i] <= 'f'
            ||| 'A' <= s[i] <= 'F'
        }
}

/// A UUID is made of groups of 8, 4, 4, 4 and 12 hexadecimal digits with hyphens between them, and
/// whatever is made so is one.
pub proof fn law_uuid_is_made_of_groups(
    s: Seq<char>,
    a: Seq<char>,
    b: Seq<char>,
    c: Seq<char>,
    d: Seq<char>,
    e: Seq<char>,
)
    ensures
        ({
            &&& a.len() == 8 && b.len() == 4 && c.len() == 4 && d.len() == 4 && e.len() == 12
            &&& all_hex(a) && all_hex(b) && all_hex(c) && all_hex(d) && all_hex(e)
            &&& s == a + seq!['-'] + b + seq!['-'] + c + seq!['-'] + d + seq!['-'] + e
        }) ==> is_uuid_text(s),
        is_uuid_text(s) ==> {
            &&& s == s.subrange(0, 8) + seq!['-'] + s.subrange(9, 13) + seq!['-'] + s.subrange(
                14,
                18,
            ) + seq!['-'] + s.subrange(19, 23) + seq!['-'] + s.subrange(24, 36)
            &&& all_hex(s.subrange(0, 8)) && all_hex(s.subrange(9, 13))
            &&& all_hex(s.subrange(14, 18)) && all_hex(s.subrange(19, 23))
            &&& all_hex(s.subrange(24, 36))
        },
{
    if a.len() == 8 && b.len() == 4 && c.len() == 4 && d.len() == 4 && e.len() == 12 && all_hex(a)
        && all_hex(b) && all_hex(c) && all_hex(d) && all_hex(e) && s == a + seq!['-'] + b + seq![
        '-',
    ] + c + seq!['-'] + d + seq!['-'] + e {
        assert forall|i: int| 0 <= i < 36 implies if is_hyphen_place(i) {
            #[trigger] s[i] == '-'
        } else {
            is_hex(s[i])
        } by {
            if i < 8 {
                assert(s[i] == a[i]);
            } else if 8 < i < 13 {
                assert(s[i] == b[i - 9]);
            } else if 13 < i < 18 {
                assert(s[i] == c[i - 14]);
            } else if 18 < i < 23 {
                assert(s[i] == d[i - 19]);
            } else if 23 < i {
                assert(s[i] == e[i - 24]);
            }
        }
    }
    if is_uuid_text(s) {
        assert(s[8] == '-' && s[13] == '-' && s[18] == '-' && s[23] == '-');
        lemma_hex_part(s, 0, 8);
        lemma_hex_part(s, 9, 13);
        lemma_hex_part(s, 14, 18);
        lemma_hex_part(s, 19, 23);
        lemma_hex_part(s, 24, 36);
        assert(s =~= s.subrange(0, 8) + seq!['-'] + s.subrange(9, 13) + seq!['-'] + s.subrange(
            14,
            18,
        ) + seq!['-'] + s.subrange(19, 23) + seq!['-'] + s.subrange(24, 36));
    }
}

proof fn lemma_hex_part(s: Seq<char>, from: int, to: int)
    requires
        is_uuid_text(s),
        0 <= from <= to <= 36,
        forall|i: int| from <= i < to ==> !#[trigger] is_hyphen_place(i),
    ensures
        all_hex(s.subrange(from, to)),
{
    let part = s.subrange(from, to);
    assert forall|i: int| 0 <= i < part.len() implies {
        ||| '0' <= #[trigger] part[i] <= '9'
        ||| 'a' <= part[i] <= 'f'
        ||| 'A' <= part[i] <= 'F'
    } by {
        assert(!is_hyphen_place(from + i));
        assert(part[i] == s[from + i]);
        assert(is_hex(s[from + i]));
    }
}

/// Two texts of which neither starts with the other differ somewhere, and nothing starts with both.
proof fn lemma_one_prefix(p: Seq<char>, q: Seq<char>, rest: Seq<char>, k: int)
    requires
        0 <= k < p.len(),
        k < q.len(),
        p[k] != q[k],
    ensures
        !q.is_prefix_of(p + rest),
{
    let s = p + rest;
    if q.is_prefix_of(s) {
        assert(s.subrange(0, q.len() as int)[k] == s[k]);
        assert(s[k] == p[k]);
    }
}

/// Of the fixed beginnings of messages, a message has at most one.
proof fn lemma_beginnings(rest: Seq<char>)
    ensures
        !"Workspace initialized: "@.is_prefix_of("Starting Copilot CLI: "@ + rest),
        !"Workspace initialized: "@.is_prefix_of("Session named: "@ + rest),
        !"Starting Copilot CLI: "@.is_prefix_of("Session named: "@ + rest),
        !"Workspace initialized: "@.is_prefix_of("Session indexing debug:"@ + rest),
        !"Starting Copilot CLI: "@.is_prefix_of("Session indexing debug:"@ + rest),
        !"Session named: "@.is_prefix_of("Session indexing debug:"@ + rest),
        !"Workspace initialized: "@.is_prefix_of("CompactionProcessor: Utilization "@ + rest),
        !"Starting Copilot CLI: "@.is_prefix_of("CompactionProcessor: Utilization "@ + rest),
        !"Session named: "@.is_prefix_of("CompactionProcessor: Utilization "@ + rest),
        !"Session indexing debug:"@.is_prefix_of("CompactionProcessor: Utilization "@ + rest),
{
    reveal_strlit("Workspace initialized: ");
    reveal_strlit("Starting Copilot CLI: ");
    reveal_strlit("Session named: ");
    reveal_strlit("Session indexing debug:");
    reveal_strlit("CompactionProcessor: Utilization ");
    let workspace = "Workspace initialized: "@;
    let starting = "Starting Copilot CLI: "@;
    let named = "Session named: "@;
    let indexing = "Session indexing debug:"@;
    let compaction = "CompactionProcessor: Utilization "@;
    lemma_one_prefix(starting, workspace, rest, 0);
    lemma_one_prefix(named, workspace, rest, 0);
    lemma_one_prefix(named, starting, rest, 1);
    lemma_one_prefix(indexing, workspace, rest, 0);
    lemma_one_prefix(indexing, starting, rest, 1);
    lemma_one_prefix(indexing, named, rest, 8);
    lemma_one_prefix(compaction, workspace, rest, 0);
    lemma_one_prefix(compaction, starting, rest, 0);
    lemma_one_prefix(compaction, named, rest, 0);
    lemma_one_prefix(compaction, indexing, rest, 0);
}

/// The first UUID with which a workspace is initialized is the session, whatever stands behind it;
/// a later one, and a word that is no UUID, change nothing.
pub proof fn law_workspace_names_the_session(
    s: LogSummary,
    id: Seq<char>,
    behind: Seq<char>,
    ts_ms: u64,
)
    requires
        none_taken(id, Trim::White),
        id.len() == 0 ==> behind.len() == 0,
        behind.len() > 0 ==> Trim::White.takes(behind[0]),
    ensures
        ({
            let after = s.after_message("Workspace initialized: "@ + (id + behind), ts_ms);
            if s.session_id.len() == 0 && is_uuid_text(id) {
                after == LogSummary { session_id: id, ..s }
            } else {
                after == s
            }
        }),
{
    law_prefix_is_cut_off(id, "Workspace initialized: "@, id + behind);
    law_first_word_stands_between_white_space(Seq::empty(), id, behind);
    assert(Seq::<char>::empty() + id + behind =~= id + behind);
}

/// The version is what follows its announcement, without the white space around it, and the latest
/// counts.
pub proof fn law_version_is_announced(
    s: LogSummary,
    front: Seq<char>,
    version: Seq<char>,
    back: Seq<char>,
    ts_ms: u64,
)
    requires
        all_taken(front, Trim::White),
        all_taken(back, Trim::White),
        version.len() > 0 ==> !Trim::White.takes(version[0]) && !Trim::White.takes(version.last()),
    ensures
        s.after_message("Starting Copilot CLI: "@ + (front + version + back), ts_ms) == (LogSummary {
            version,
            ..s
        }),
{
    let rest = front + version + back;
    lemma_beginnings(rest);
    law_prefix_is_cut_off(rest, "Starting Copilot CLI: "@, rest);
    law_trimming_takes_the_ends_off(front, version, back, Trim::White);
}

/// The title is what follows its announcement, without the white space and then the quotes around
/// it, and the latest counts.
pub proof fn law_title_is_announced(
    s: LogSummary,
    front: Seq<char>,
    open: Seq<char>,
    name: Seq<char>,
    close: Seq<char>,
    back: Seq<char>,
    ts_ms: u64,
)
    requires
        all_taken(front, Trim::White),
        all_taken(back, Trim::White),
        forall|i: int| 0 <= i < open.len() ==> #[trigger] open[i] == '"',
        forall|i: int| 0 <= i < close.len() ==> #[trigger] close[i] == '"',
        name.len() > 0 ==> name[0] != '"' && name.last() != '"',
        open.len() == 0 && name.len() > 0 ==> !Trim::White.takes(name[0]),
        close.len() == 0 && name.len() > 0 ==> !Trim::White.takes(name.last()),
    ensures
        s.after_message("Session named: "@ + (front + (open + name + close) + back), ts_ms) == (
        LogSummary { session_name: name, ..s }),
{
    let quoted = open + name + close;
    let rest = front + quoted + back;
    lemma_beginnings(rest);
    law_prefix_is_cut_off(rest, "Session named: "@, rest);
    if quoted.len() > 0 {
        assert(quoted[0] == if open.len() > 0 {
            open[0]
        } else if name.len() > 0 {
            name[0]
        } else {
            close[0]
        });
        assert(quoted.last() == if close.len() > 0 {
            close[close.len() - 1]
        } else if name.len() > 0 {
            name.last()
        } else {
            open[open.len() - 1]
        });
    }
    law_trimming_takes_the_ends_off(front, quoted, back, Trim::White);
    law_trimming_takes_the_ends_off(open, name, close, Trim::Quote);
}

proof fn lemma_repository(
    front: Seq<char>,
    white: Seq<char>,
    name: Seq<char>,
    back: Seq<char>,
    behind: Seq<char>,
)
    requires
        forall|j: int|
            0 <= j < front.len() ==> !#[trigger] reads_at(
                front + "repository="@ + (white + name + back + behind),
                "repository="@,
                j,
            ),
        all_taken(white, Trim::White),
        all_taken(back, Trim::White),
        !(white + name + back).contains(','),
        behind.len() > 0 ==> behind[0] == ',',
        name.len() > 0 ==> !Trim::White.takes(name[0]) && !Trim::White.takes(name.last()),
    ensures
        reported_repository(front + "repository="@ + (white + name + back + behind)) == if name.len()
            > 0 && name != "undefined"@ {
            Some(name)
        } else {
            None
        },
{
    let mark = "repository="@;
    let value = white + name + back;
    let tail = value + behind;
    let message = front + mark + tail;
    let at = front.len() as int;
    law_text_is_found_where_it_first_stands(message, mark);
    assert(reads_at(message, mark, at));
    assert(find(message, mark) == Some(at));
    assert(message.skip(at + mark.len()) =~= tail);
    if behind.len() > 0 {
        law_before_first_character(value, ',', behind.skip(1));
        assert(tail =~= value.push(',') + behind.skip(1));
    } else {
        law_before_first_character(value, ',', behind);
        assert(tail =~= value);
    }
    law_trimming_takes_the_ends_off(white, name, back, Trim::White);
}

/// The repository is what stands behind the first `repository=` of an indexing message, up to a
/// comma or the end, without the white space around it. One that is empty or undefined changes
/// nothing.
pub proof fn law_repository_is_reported(
    s: LogSummary,
    front: Seq<char>,
    white: Seq<char>,
    name: Seq<char>,
    back: Seq<char>,
    behind: Seq<char>,
    ts_ms: u64,
)
    requires
        forall|j: int|
            0 <= j < "Session indexing debug:"@.len() + front.len() ==> !#[trigger] reads_at(
                "Session indexing debug:"@ + front + "repository="@ + (white + name + back + behind),
                "repository="@,
                j,
            ),
        all_taken(white, Trim::White),
        all_taken(back, Trim::White),
        !(white + name + back).contains(','),
        behind.len() > 0 ==> behind[0] == ',',
        name.len() > 0 ==> !Trim::White.takes(name[0]) && !Trim::White.takes(name.last()),
    ensures
        ({
            let after = s.after_message(
                "Session indexing debug:"@ + front + "repository="@ + (white + name + back + behind),
                ts_ms,
            );
            if name.len() > 0 && name != "undefined"@ {
                after == LogSummary { repository: name, ..s }
            } else {
                after == s
            }
        }),
{
    let start = "Session indexing debug:"@;
    let mark = "repository="@;
    let tail = white + name + back + behind;
    let message = start + front + mark + tail;
    lemma_repository(start + front, white, name, back, behind);
    lemma_beginnings(front + mark + tail);
    assert(message =~= start + (front + mark + tail));
    law_prefix_is_cut_off(message, start, front + mark + tail);
}

/// An indexing message without a repository changes nothing.
pub proof fn law_no_repository_is_reported(s: LogSummary, rest: Seq<char>, ts_ms: u64)
    requires
        !contains_text("Session indexing debug:"@ + rest, "repository="@),
    ensures
        s.after_message("Session indexing debug:"@ + rest, ts_ms) == s,
{
    let message = "Session indexing debug:"@ + rest;
    lemma_beginnings(rest);
    law_prefix_is_cut_off(message, "Session indexing debug:"@, rest);
    law_text_is_found_where_it_first_stands(message, "repository="@);
    lemma_find(message, "repository="@);
}

/// A number in decimal stands between others as one word, without white space, slashes or
/// parentheses.
proof fn lemma_decimal_characters(n: nat)
    ensures
        decimal(n).len() > 0,
        forall|i: int| 0 <= i < decimal(n).len() ==> '0' <= #[trigger] decimal(n)[i] <= '9',
    decreases n,
{
    if n >= 10 {
        lemma_decimal_characters(n / 10);
    }
}

/// A report such as `22.3% (28516/128000 tokens) below threshold 80%` tells the percentage, the
/// tokens in the context and the size of its window, and changes nothing else.
pub proof fn law_utilization_is_read(
    s: LogSummary,
    literal: Seq<char>,
    used: u64,
    total: u64,
    unit: Seq<char>,
    rest: Seq<char>,
    ts_ms: u64,
)
    requires
        is_float(literal),
        forall|i: int|
            0 <= i < literal.len() ==> '0' <= #[trigger] literal[i] <= '9' || literal[i] == '.',
        literal.len() > 0,
        !unit.contains('/') && !unit.contains(')'),
        unit.len() > 0 ==> Trim::White.takes(unit[0]),
    ensures
        ({
            let report = literal + seq!['%', ' ', '('] + decimal(used as nat) + seq!['/'] + decimal(
                total as nat,
            ) + unit + seq![')'] + rest;
            let after = LogSummary {
                context_pct: literal,
                context_tokens: used,
                context_window: total,
                ..s
            };
            &&& parentheses_in_order(report)
            &&& s.after_utilization(report) == after
            &&& s.after_message("CompactionProcessor: Utilization "@ + report, ts_ms) == after
        }),
{
    let inner = decimal(used as nat) + seq!['/'] + decimal(total as nat) + unit;
    let report = literal + seq!['%', ' ', '('] + decimal(used as nat) + seq!['/'] + decimal(
        total as nat,
    ) + unit + seq![')'] + rest;
    assert(report =~= literal + seq!['%', ' ', '('] + inner + seq![')'] + rest);
    lemma_used_and_total(used, total, unit);
    lemma_percentage(literal, seq![' ', '('] + inner + seq![')'] + rest);
    assert(report =~= literal.push('%') + (seq![' ', '('] + inner + seq![')'] + rest));
    lemma_parentheses(literal, inner, rest);
    lemma_beginnings(report);
    law_prefix_is_cut_off(report, "CompactionProcessor: Utilization "@, report);
}

proof fn lemma_percentage(literal: Seq<char>, behind: Seq<char>)
    requires
        is_float(literal),
        forall|i: int|
            0 <= i < literal.len() ==> '0' <= #[trigger] literal[i] <= '9' || literal[i] == '.',
        literal.len() > 0,
    ensures
        reported_percentage(literal.push('%') + behind) == Some(literal),
{
    let none = Seq::<char>::empty();
    assert(!literal.contains('%'));
    lemma_first_char(literal, '%', behind);
    assert((literal.push('%') + behind).take(literal.len() as int) =~= literal);
    assert(all_taken(none, Trim::White));
    assert('0' <= literal[0] <= '9' || literal[0] == '.');
    assert('0' <= literal.last() <= '9' || literal.last() == '.');
    law_trimming_takes_the_ends_off(none, literal, none, Trim::White);
    assert(none + literal + none =~= literal);
}

proof fn lemma_parentheses(literal: Seq<char>, inner: Seq<char>, rest: Seq<char>)
    requires
        forall|i: int|
            0 <= i < literal.len() ==> '0' <= #[trigger] literal[i] <= '9' || literal[i] == '.',
        !inner.contains(')'),
    ensures
        ({
            let report = literal + seq!['%', ' ', '('] + inner + seq![')'] + rest;
            &&& parentheses_in_order(report)
            &&& in_parentheses(report) == Some(inner)
        }),
{
    let report = literal + seq!['%', ' ', '('] + inner + seq![')'] + rest;
    let n = literal.len() as int;
    let head = literal + seq!['%', ' '];
    assert(!head.contains('(')) by {
        if head.contains('(') {
            let i = head.index_of('(');
            if i < n {
                assert(literal[i] == '(');
            }
        }
    }
    let tail = inner + seq![')'] + rest;
    assert(report =~= head.push('(') + tail);
    lemma_first_char(head, '(', tail);
    let body = head.push('(') + inner;
    assert(!body.contains(')')) by {
        if body.contains(')') {
            let i = body.index_of(')');
            if i > n + 2 {
                assert(inner[i - n - 3] == ')');
            } else if i < n {
                assert(literal[i] == ')');
            }
        }
    }
    assert(report =~= body.push(')') + rest);
    lemma_first_char(body, ')', rest);
    assert(report.subrange(n + 3, n + 3 + inner.len()) =~= inner);
}

proof fn lemma_used_and_total(used: u64, total: u64, unit: Seq<char>)
    requires
        !unit.contains('/') && !unit.contains(')'),
        unit.len() > 0 ==> Trim::White.takes(unit[0]),
    ensures
        ({
            let inner = decimal(used as nat) + seq!['/'] + decimal(total as nat) + unit;
            &&& !inner.contains(')')
            &&& used_and_total(inner) == Some((used, total))
        }),
{
    let none = Seq::<char>::empty();
    let u = decimal(used as nat);
    let t = decimal(total as nat);
    lemma_decimal_characters(used as nat);
    lemma_decimal_characters(total as nat);
    let inner = u + seq!['/'] + t + unit;
    assert(!inner.contains(')')) by {
        if inner.contains(')') {
            let i = inner.index_of(')');
            if i < u.len() {
                assert(u[i] == ')');
            } else if i > u.len() && i < u.len() + 1 + t.len() {
                assert(t[i - u.len() - 1] == ')');
            } else if i >= u.len() + 1 + t.len() {
                assert(unit[i - u.len() - 1 - t.len()] == ')');
            }
        }
    }
    let back = t + unit;
    assert(!u.contains('/'));
    assert(inner =~= u.push('/') + back);
    lemma_first_char(u, '/', back);
    assert(inner.take(u.len() as int) =~= u);
    assert(inner.skip(u.len() as int + 1) =~= back);
    assert('0' <= u[0] <= '9' && '0' <= u.last() <= '9');
    law_trimming_takes_the_ends_off(none, u, none, Trim::White);
    assert(none + u + none =~= u);
    law_first_word_stands_between_white_space(none, t, unit);
    assert(none + t + unit =~= back);
    assert(!back.contains('/')) by {
        if back.contains('/') {
            let i = back.index_of('/');
            if i < t.len() {
                assert(t[i] == '/');
            } else {
                assert(unit[i - t.len()] == '/');
            }
        }
    }
    lemma_find_char(back, '/');
    law_decimal_is_read_back(used as nat, u64::MAX as nat);
    law_decimal_is_read_back(total as nat, u64::MAX as nat);
}

/// A report without a percentage leaves the percentage as it is; one without numbers in
/// parentheses, or with more than one slash between them, leaves the numbers. Nothing else is ever
/// changed by a report.
pub proof fn law_unreadable_report_changes_nothing(
    s: LogSummary,
    report: Seq<char>,
    a: Seq<char>,
    b: Seq<char>,
    c: Seq<char>,
)
    ensures
        ({
            let after = s.after_utilization(report);
            &&& !report.contains('%') ==> after.context_pct == s.context_pct
            &&& !report.contains('(') || !report.contains(')') ==> after.context_tokens
                == s.context_tokens && after.context_window == s.context_window
            &&& after == LogSummary {
                context_pct: after.context_pct,
                context_tokens: after.context_tokens,
                context_window: after.context_window,
                ..s
            }
        }),
        used_and_total(a + seq!['/'] + b + seq!['/'] + c) is None,
        !a.contains('/') ==> used_and_total(a) is None,
{
    lemma_find_char(report, '%');
    lemma_find_char(report, '(');
    lemma_find_char(report, ')');
    lemma_find_char(a, '/');
    let s2 = a + seq!['/'] + b + seq!['/'] + c;
    lemma_find_char(s2, '/');
    assert(s2[a.len() as int] == '/');
    let i = find(s2, seq!['/'])->0;
    let behind = s2.skip(i + 1);
    let second = a.len() as int + 1 + b.len();
    assert(s2[second] == '/');
    assert(i <= a.len());
    assert(behind[second - i - 1] == '/');
    lemma_find_char(behind, '/');
    assert(behind.contains('/'));
}

/// A message of none of the fixed beginnings counts as a turn where it holds the mark of a request,
/// and the model generates from then on; it ends that where it holds the mark of an end alone; and
/// otherwise it changes nothing.
pub proof fn law_requests_begin_and_end(s: LogSummary, message: Seq<char>, ts_ms: u64)
    requires
        !"Workspace initialized: "@.is_prefix_of(message),
        !"Starting Copilot CLI: "@.is_prefix_of(message),
        !"Session named: "@.is_prefix_of(message),
        !"Session indexing debug:"@.is_prefix_of(message),
        !"CompactionProcessor: Utilization "@.is_prefix_of(message),
    ensures
        ({
            let begins = contains_text(
                message,
                "--- Start of group: Sending request to the AI model ---"@,
            );
            let ends = contains_text(message, "--- End of group ---"@);
            let after = s.after_message(message, ts_ms);
            &&& begins ==> after == LogSummary {
                turn_count: s.turn_count + 1,
                model_generating: true,
                thinking_since_ms: ts_ms,
                ..s
            }
            &&& !begins && ends ==> after == LogSummary { model_generating: false, ..s }
            &&& !begins && !ends ==> after == s
        }),
{
}

/// A line leaves its time stamp, if it has one, as the last, and as the first where there was none;
/// all else is what its message leaves.
pub proof fn law_line_is_time_stamp_and_message(s: LogSummary, line: Seq<char>)
    ensures
        ({
            let ts_ms = timestamp_of(line);
            let after = s.after_line(line);
            &&& after == LogSummary {
                started_at_ms: after.started_at_ms,
                last_event_ms: after.last_event_ms,
                ..s.after_message(message_of(line), ts_ms)
            }
            &&& ts_ms > 0 ==> after.last_event_ms == ts_ms && after.started_at_ms == (if s.started_at_ms
                > 0 {
                s.started_at_ms
            } else {
                ts_ms
            })
            &&& ts_ms == 0 ==> after.last_event_ms == s.last_event_ms && after.started_at_ms
                == s.started_at_ms
        }),
{
}

/// A line is refused only where one more turn cannot be counted, or where the first parenthesis of
/// a utilization report closes.
pub proof fn law_only_such_lines_are_refused(s: LogSummary, line: Seq<char>)
    ensures
        ({
            let message = message_of(line);
            let report = message.skip("CompactionProcessor: Utilization "@.len() as int);
            let open = find(report, seq!['(']);
            let close = find(report, seq![')']);
            let is_report = "CompactionProcessor: Utilization "@.is_prefix_of(message);
            s.step(line) is None <==> {
                ||| is_report && open is Some && close is Some && close->0 < open->0
                ||| !is_report && s.turn_count >= u32::MAX && !"Workspace initialized: "@.is_prefix_of(
                    message,
                ) && !"Starting Copilot CLI: "@.is_prefix_of(message)
                    && !"Session named: "@.is_prefix_of(message)
                    && !"Session indexing debug:"@.is_prefix_of(message) && contains_text(
                    message,
                    "--- Start of group: Sending request to the AI model ---"@,
                )
            }
        }),
        s.step(line) matches Some(next) ==> next == s.after_line(line),
{
    let message = message_of(line);
    let report = message.skip("CompactionProcessor: Utilization "@.len() as int);
    lemma_find_char(report, '(');
    lemma_find_char(report, ')');
}

/// A log result shows every one of its fields as it is.
pub proof fn law_log_result_shows_its_fields(r: LogResult)
    ensures
        r@.session_id == r.session_id@,
        r@.version == r.version@,
        r@.session_name == r.session_name@,
        r@.repository == r.repository@,
        r@.context_pct == r.context_pct@,
        r@.context_tokens == r.context_tokens,
        r@.context_window == r.context_window,
        r@.turn_count == r.turn_count,
        r@.model_generating == r.model_generating,
        r@.thinking_since_ms == r.thinking_since_ms,
        r@.started_at_ms == r.started_at_ms,
        r@.last_event_ms == r.last_event_ms,
        r.summary() == r@,
{
}

/// The percentage is the literal in front of the first percent sign, without the white space around
/// it, and only a floating-point literal is one.
pub proof fn law_percentage_stands_in_front(s: LogSummary, front: Seq<char>, rest: Seq<char>)
    requires
        !front.contains('%'),
    ensures
        is_float(trim(front, Trim::White)) ==> s.after_utilization(front.push('%') + rest).context_pct
            == trim(front, Trim::White),
        !is_float(trim(front, Trim::White)) ==> s.after_utilization(
            front.push('%') + rest,
        ).context_pct == s.context_pct,
{
    lemma_first_char(front, '%', rest);
    assert((front.push('%') + rest).take(front.len() as int) =~= front);
}

/// The tokens stand between the first parentheses, in front of and behind one slash. Both must be
/// numbers that fit 64 bits, the first without the white space around it and the second as a word;
/// where one is not, neither is taken.
pub proof fn law_tokens_stand_in_parentheses(
    s: LogSummary,
    front: Seq<char>,
    used: Seq<char>,
    total: Seq<char>,
    rest: Seq<char>,
)
    requires
        !front.contains('(') && !front.contains(')'),
        !used.contains('/') && !used.contains(')'),
        !total.contains('/') && !total.contains(')'),
    ensures
        ({
            let after = s.after_utilization(
                front.push('(') + (used.push('/') + total).push(')') + rest,
            );
            match (
                unsigned_value(trim(used, Trim::White), u64::MAX as nat),
                unsigned_value(first_word(total), u64::MAX as nat),
            ) {
                (Some(u), Some(t)) => after.context_tokens == u && after.context_window == t,
                _ => after.context_tokens == s.context_tokens && after.context_window
                    == s.context_window,
            }
        }),
{
    let inner = used.push('/') + total;
    let report = front.push('(') + inner.push(')') + rest;
    let tail = inner.push(')') + rest;
    assert(report =~= front.push('(') + tail);
    lemma_first_char(front, '(', tail);
    let body = front.push('(') + inner;
    assert(!body.contains(')')) by {
        if body.contains(')') {
            let i = body.index_of(')');
            let j = i - front.len() - 1;
            if i < front.len() {
                assert(front[i] == ')');
            } else if j >= 0 && j < used.len() {
                assert(used[j] == ')');
            } else if j > used.len() {
                assert(total[j - used.len() - 1] == ')');
            }
        }
    }
    assert(report =~= body.push(')') + rest);
    lemma_first_char(body, ')', rest);
    let open = front.len() as int;
    assert(report.subrange(open + 1, open + 1 + inner.len()) =~= inner);
    lemma_first_char(used, '/', total);
    assert(inner.take(used.len() as int) =~= used);
    assert(inner.skip(used.len() as int + 1) =~= total);
    lemma_find_char(total, '/');
}

} // verus!
