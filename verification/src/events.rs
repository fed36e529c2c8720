//! The event stream of a session: one JSON document a line, in `events.jsonl`.
use crate::json::{
    get_member, json_of, json_parse, optional_text, parse_json, text_member, unsigned_member, Json,
};
use crate::tail::{run, update_cache, LineFold, LineSink, TailCache};
use crate::text::{
    chars_are, chars_of, law_trimming_takes_the_back_off, string_of, trim_back, trim_chars_back, Trim,
};
use vstd::prelude::*;

verus! {

/// How many turns the token history keeps.
pub const MAX_TOKEN_HISTORY: usize = 10_000;

/// An event of the stream, with what is read of it.
pub enum Event<T> {
    /// `assistant.turn_start`: a turn of the assistant begins.
    TurnStart,
    /// `assistant.message`: a message, its tokens and the model that wrote it.
    Message { output_tokens: Option<u64>, model: Option<T> },
    /// `session.start` or `session.resume`: the model and effort the session begins with.
    SessionStart { model: Option<T>, effort: Option<T> },
    /// `session.model_change`: the user switched the model or the effort.
    ModelChange { model: Option<T>, effort: Option<T> },
    /// `session.compaction_start`: how full the context is.
    CompactionStart { current_tokens: Option<u64>, token_limit: Option<u64> },
    /// An event of any other type.
    Unknown,
}

impl Event<String> {
    /// The mathematical view.
    pub open spec fn view(&self) -> Event<Seq<char>> {
        match *self {
            Event::TurnStart => Event::TurnStart,
            Event::Message { output_tokens, model } => Event::Message {
                output_tokens,
                model: optional_text(model),
            },
            Event::SessionStart { model, effort } => Event::SessionStart {
                model: optional_text(model),
                effort: optional_text(effort),
            },
            Event::ModelChange { model, effort } => Event::ModelChange {
                model: optional_text(model),
                effort: optional_text(effort),
            },
            Event::CompactionStart { current_tokens, token_limit } => Event::CompactionStart {
                current_tokens,
                token_limit,
            },
            Event::Unknown => Event::Unknown,
        }
    }
}

/// What is read of the `data` object of an event, whatever its type.
pub struct EventData<T> {
    /// `outputTokens`
    pub output_tokens: Option<u64>,
    /// `model`
    pub model: Option<T>,
    /// `selectedModel`
    pub selected_model: Option<T>,
    /// `newModel`
    pub new_model: Option<T>,
    /// `reasoningEffort`
    pub reasoning_effort: Option<T>,
    /// `currentTokens`
    pub current_tokens: Option<u64>,
    /// `tokenLimit`
    pub token_limit: Option<u64>,
}

impl EventData<String> {
    /// The mathematical view.
    pub open spec fn view(&self) -> EventData<Seq<char>> {
        EventData {
            output_tokens: self.output_tokens,
            model: optional_text(self.model),
            selected_model: optional_text(self.selected_model),
            new_model: optional_text(self.new_model),
            reasoning_effort: optional_text(self.reasoning_effort),
            current_tokens: self.current_tokens,
            token_limit: self.token_limit,
        }
    }
}

/// What is read of the `data` object.
pub open spec fn data_in(data: Json) -> EventData<Seq<char>> {
    EventData {
        output_tokens: data.unsigned_member("outputTokens"@),
        model: data.text_member("model"@),
        selected_model: data.text_member("selectedModel"@),
        new_model: data.text_member("newModel"@),
        reasoning_effort: data.text_member("reasoningEffort"@),
        current_tokens: data.unsigned_member("currentTokens"@),
        token_limit: data.unsigned_member("tokenLimit"@),
    }
}

/// The event of this type with this data.
pub open spec fn classified(kind: Seq<char>, data: EventData<Seq<char>>) -> Event<Seq<char>> {
    if kind == "assistant.turn_start"@ {
        Event::TurnStart
    } else if kind == "assistant.message"@ {
        Event::Message { output_tokens: data.output_tokens, model: data.model }
    } else if kind == "session.start"@ || kind == "session.resume"@ {
        Event::SessionStart { model: data.selected_model, effort: data.reasoning_effort }
    } else if kind == "session.model_change"@ {
        Event::ModelChange { model: data.new_model, effort: data.reasoning_effort }
    } else if kind == "session.compaction_start"@ {
        Event::CompactionStart {
            current_tokens: data.current_tokens,
            token_limit: data.token_limit,
        }
    } else {
        Event::Unknown
    }
}

/// The event that a JSON document is; `None` where it names no type. Without a `data` object, an
/// event has no data.
pub open spec fn event_of(json: Json) -> Option<Event<Seq<char>>> {
    match json.text_member("type"@) {
        None => None,
        Some(kind) => Some(
            classified(
                kind,
                match json.member("data"@) {
                    Some(data) => data_in(data),
                    None => data_in(Json::Other),
                },
            ),
        ),
    }
}

/// The event in a line; `None` where the line is no JSON document or the document names no type.
/// Carriage returns at the end of the line are white space to JSON, and an empty text is no
/// document.
pub open spec fn event_in_line(line: Seq<char>) -> Option<Event<Seq<char>>> {
    let document = trim_back(line, Trim::Return);
    if document.len() == 0 {
        None
    } else {
        match json_parse(document) {
            Some(json) => event_of(json),
            None => None,
        }
    }
}

/// What a stream of events adds up to.
pub struct EventsResult {
    /// The number of turns started.
    pub turn_count: u32,
    /// The output tokens of all messages together.
    pub total_output_tokens: u64,
    /// The model last heard of; empty before the first.
    pub model: String,
    /// The tokens in the context when a compaction last started.
    pub context_tokens: u64,
    /// The size of the context window when a compaction last started.
    pub context_window: u64,
    /// The reasoning effort last heard of; empty before the first.
    pub effort: String,
    /// The output tokens of each message, up to `MAX_TOKEN_HISTORY` of them.
    pub token_history: Vec<u64>,
}

/// The mathematical view of an `EventsResult`, with counters that have no limit.
pub struct EventsSummary {
    pub turn_count: nat,
    pub total_output_tokens: nat,
    pub model: Seq<char>,
    pub context_tokens: u64,
    pub context_window: u64,
    pub effort: Seq<char>,
    pub token_history: Seq<u64>,
}

impl View for EventsResult {
    type V = EventsSummary;

    open spec fn view(&self) -> EventsSummary {
        EventsSummary {
            turn_count: self.turn_count as nat,
            total_output_tokens: self.total_output_tokens as nat,
            model: self.model@,
            context_tokens: self.context_tokens,
            context_window: self.context_window,
            effort: self.effort@,
            token_history: self.token_history@,
        }
    }
}

impl EventsSummary {
    /// What no event adds up to.
    pub open spec fn nothing() -> EventsSummary {
        EventsSummary {
            turn_count: 0,
            total_output_tokens: 0,
            model: seq![],
            context_tokens: 0,
            context_window: 0,
            effort: seq![],
            token_history: seq![],
        }
    }

    /// The counters fit the machine's integers.
    pub open spec fn fits(self) -> bool {
        self.turn_count <= u32::MAX && self.total_output_tokens <= u64::MAX
    }

    /// One more event. A model or an effort that a session begins with counts only while none was
    /// heard of; a model that is empty counts only there.
    pub open spec fn after(self, event: Event<Seq<char>>) -> EventsSummary {
        match event {
            Event::TurnStart => EventsSummary { turn_count: self.turn_count + 1, ..self },
            Event::Message { output_tokens, model } => EventsSummary {
                total_output_tokens: match output_tokens {
                    Some(n) => self.total_output_tokens + n as nat,
                    None => self.total_output_tokens,
                },
                token_history: match output_tokens {
                    Some(n) => if self.token_history.len() < MAX_TOKEN_HISTORY {
                        self.token_history.push(n)
                    } else {
                        self.token_history
                    },
                    None => self.token_history,
                },
                model: match model {
                    Some(name) => if name.len() > 0 {
                        name
                    } else {
                        self.model
                    },
                    None => self.model,
                },
                ..self
            },
            Event::SessionStart { model, effort } => EventsSummary {
                model: match model {
                    Some(name) => if self.model.len() == 0 {
                        name
                    } else {
                        self.model
                    },
                    None => self.model,
                },
                effort: match effort {
                    Some(level) => if self.effort.len() == 0 {
                        level
                    } else {
                        self.effort
                    },
                    None => self.effort,
                },
                ..self
            },
            Event::ModelChange { model, effort } => EventsSummary {
                model: match model {
                    Some(name) => if name.len() > 0 {
                        name
                    } else {
                        self.model
                    },
                    None => self.model,
                },
                effort: match effort {
                    Some(level) => level,
                    None => self.effort,
                },
                ..self
            },
            Event::CompactionStart { current_tokens, token_limit } => EventsSummary {
                context_tokens: match current_tokens {
                    Some(n) => n,
                    None => self.context_tokens,
                },
                context_window: match token_limit {
                    Some(n) => n,
                    None => self.context_window,
                },
                ..self
            },
            Event::Unknown => self,
        }
    }

    /// One more line. A line without an event changes nothing.
    pub open spec fn after_line(self, line: Seq<char>) -> EventsSummary {
        match event_in_line(line) {
            Some(event) => self.after(event),
            None => self,
        }
    }
}

impl Default for EventsResult {
    fn default() -> (r: Self)
        ensures
            r@ == EventsSummary::nothing(),
            r.turn_count == 0 && r.total_output_tokens == 0,
            r.model@.len() == 0 && r.effort@.len() == 0 && r.token_history@.len() == 0,
            r.context_tokens == 0 && r.context_window == 0,
    {
        EventsResult {
            turn_count: 0,
            total_output_tokens: 0,
            model: String::new(),
            context_tokens: 0,
            context_window: 0,
            effort: String::new(),
            token_history: Vec::new(),
        }
    }
}

/// The view of an optional event.
pub open spec fn optional_event(e: Option<Event<String>>) -> Option<Event<Seq<char>>> {
    match e {
        Some(event) => Some(event@),
        None => None,
    }
}

/// The event of this type with this data.
pub fn classify_event(kind: &str, data: EventData<String>) -> (r: Event<String>)
    ensures
        r@ == classified(kind@, data@),
{
    let kind = chars_of(kind);
    let kind: &[char] = kind.as_slice();
    if chars_are(kind, "assistant.turn_start") {
        Event::TurnStart
    } else if chars_are(kind, "assistant.message") {
        Event::Message { output_tokens: data.output_tokens, model: data.model }
    } else if chars_are(kind, "session.start") || chars_are(kind, "session.resume") {
        Event::SessionStart { model: data.selected_model, effort: data.reasoning_effort }
    } else if chars_are(kind, "session.model_change") {
        Event::ModelChange { model: data.new_model, effort: data.reasoning_effort }
    } else if chars_are(kind, "session.compaction_start") {
        Event::CompactionStart {
            current_tokens: data.current_tokens,
            token_limit: data.token_limit,
        }
    } else {
        Event::Unknown
    }
}

/// What is read of the `data` object.
fn read_data(data: &serde_json::Value) -> (r: EventData<String>)
    ensures
        r@ == data_in(json_of(*data)),
{
    EventData {
        output_tokens: unsigned_member(data, "outputTokens"),
        model: text_member(data, "model"),
        selected_model: text_member(data, "selectedModel"),
        new_model: text_member(data, "newModel"),
        reasoning_effort: text_member(data, "reasoningEffort"),
        current_tokens: unsigned_member(data, "currentTokens"),
        token_limit: unsigned_member(data, "tokenLimit"),
    }
}

/// No data.
fn no_data() -> (r: EventData<String>)
    ensures
        r@ == data_in(Json::Other),
{
    EventData {
        output_tokens: None,
        model: None,
        selected_model: None,
        new_model: None,
        reasoning_effort: None,
        current_tokens: None,
        token_limit: None,
    }
}

/// The event that a JSON document is; `None` where it names no type.
fn read_event(value: &serde_json::Value) -> (r: Option<Event<String>>)
    ensures
        optional_event(r) == event_of(json_of(*value)),
{
    match text_member(value, "type") {
        Some(kind) => {
            let data = match get_member(value, "data") {
                Some(data) => read_data(data),
                None => no_data(),
            };
            Some(classify_event(kind.as_str(), data))
        },
        None => None,
    }
}

/// The event in a line.
pub fn read_line(line: &str) -> (r: Option<Event<String>>)
    ensures
        optional_event(r) == event_in_line(line@),
{
    let cs = chars_of(line);
    let document = trim_chars_back(cs.as_slice(), Trim::Return);
    if document.len() == 0 {
        return None;
    }
    match parse_json(string_of(document).as_str()) {
        Some(value) => read_event(&value),
        None => None,
    }
}

/// Whether the counters still fit after the event.
pub fn event_fits(event: &Event<String>, result: &EventsResult) -> (r: bool)
    ensures
        r == result@.after(event@).fits(),
{
    match event {
        Event::TurnStart => result.turn_count < u32::MAX,
        Event::Message { output_tokens: Some(n), .. } => *n <= u64::MAX
            - result.total_output_tokens,
        _ => true,
    }
}

/// Folds an event into the result.
pub fn apply_event(event: Event<String>, result: &mut EventsResult)
    requires
        old(result)@.after(event@).fits(),
    ensures
        final(result)@ == old(result)@.after(event@),
{
    match event {
        Event::TurnStart => {
            result.turn_count = result.turn_count + 1;
        },
        Event::Message { output_tokens, model } => {
            if let Some(tokens) = output_tokens {
                result.total_output_tokens = result.total_output_tokens + tokens;
                if result.token_history.len() < MAX_TOKEN_HISTORY {
                    result.token_history.push(tokens);
                }
            }
            if let Some(model) = model {
                if !model.as_str().is_empty() {
                    result.model = model;
                }
            }
        },
        Event::SessionStart { model, effort } => {
            if result.model.as_str().is_empty() {
                if let Some(model) = model {
                    result.model = model;
                }
            }
            if result.effort.as_str().is_empty() {
                if let Some(effort) = effort {
                    result.effort = effort;
                }
            }
        },
        Event::ModelChange { model, effort } => {
            if let Some(model) = model {
                if !model.as_str().is_empty() {
                    result.model = model;
                }
            }
            if let Some(effort) = effort {
                result.effort = effort;
            }
        },
        Event::CompactionStart { current_tokens, token_limit } => {
            if let Some(current) = current_tokens {
                result.context_tokens = current;
            }
            if let Some(limit) = token_limit {
                result.context_window = limit;
            }
        },
        Event::Unknown => {},
    }
}

/// Parses one line of `events.jsonl` and folds it into the result. Events of unknown type and
/// malformed lines are ignored.
pub fn parse_events_line(line: &str, result: &mut EventsResult)
    requires
        old(result)@.after_line(line@).fits(),
    ensures
        final(result)@ == old(result)@.after_line(line@),
{
    if let Some(event) = read_line(line) {
        apply_event(event, result);
    }
}

/// Parses one line of `events.jsonl` and folds it into the result, unless a counter would no
/// longer fit: then it answers `false` and changes nothing.
pub fn checked_parse_events_line(line: &str, result: &mut EventsResult) -> (r: bool)
    ensures
        r == old(result)@.after_line(line@).fits(),
        r ==> final(result)@ == old(result)@.after_line(line@),
        !r ==> final(result)@ == old(result)@,
{
    if let Some(event) = read_line(line) {
        if !event_fits(&event, result) {
            return false;
        }
    }
    parse_events_line(line, result);
    true
}

/// How far an event stream has been read.
pub type EventsCache = TailCache<EventsResult>;

impl LineFold for EventsSummary {
    open spec fn start() -> Self {
        EventsSummary::nothing()
    }

    open spec fn step(self, line: Seq<char>) -> Option<Self> {
        match event_in_line(line) {
            Some(event) => if self.after(event).fits() {
                Some(self.after(event))
            } else {
                None
            },
            None => Some(self),
        }
    }

    proof fn empty_line_adds_nothing(self) {
    }

    proof fn return_makes_no_difference(self, line: Seq<char>) {
        assert(line.push('\r').drop_last() =~= line);
    }
}

impl LineSink for EventsResult {
    type Summary = EventsSummary;

    open spec fn summary(&self) -> EventsSummary {
        self@
    }

    fn fresh() -> (r: Self) {
        EventsResult::default()
    }

    fn take_line(&mut self, line: &str) -> (r: bool) {
        checked_parse_events_line(line, self)
    }
}

/// Brings the cache up to date with an event stream of this content; `None` where the file cannot
/// be read. Answers whether all new complete lines were taken.
pub fn update_events_cache(cache: &mut EventsCache, content: Option<&[u8]>) -> (r: bool)
    ensures
        match content {
            Some(bytes) => (final(cache)@, r) == old(cache)@.after_update(bytes@),
            None => r && final(cache)@ == old(cache)@,
        },
{
    update_cache(cache, content)
}

/// A model or an effort that was heard of is not overwritten when the session starts or resumes.
pub proof fn law_session_start_keeps_what_was_heard(
    s: EventsSummary,
    model: Option<Seq<char>>,
    effort: Option<Seq<char>>,
)
    ensures
        s.model.len() > 0 ==> s.after(Event::SessionStart { model, effort }).model == s.model,
        s.effort.len() > 0 ==> s.after(Event::SessionStart { model, effort }).effort == s.effort,
{
}

/// Once a model was heard of, there is always one.
pub proof fn law_model_is_never_forgotten(s: EventsSummary, event: Event<Seq<char>>)
    ensures
        s.model.len() > 0 ==> s.after(event).model.len() > 0,
{
}

/// Lines without an event, and events of unknown type, change nothing.
pub proof fn law_other_lines_change_nothing(s: EventsSummary, lines: Seq<Seq<char>>)
    requires
        s.fits(),
        forall|i: int|
            0 <= i < lines.len() ==> match event_in_line(#[trigger] lines[i]) {
                Some(event) => event is Unknown,
                None => true,
            },
    ensures
        run(s, lines) == (s, true),
    decreases lines.len(),
{
    if lines.len() > 0 {
        assert(event_in_line(lines[0]) matches Some(event) ==> event is Unknown);
        assert forall|i: int| 0 <= i < lines.drop_first().len() implies match event_in_line(
            #[trigger] lines.drop_first()[i],
        ) {
            Some(event) => event is Unknown,
            None => true,
        } by {
            assert(lines.drop_first()[i] == lines[i + 1]);
        }
        law_other_lines_change_nothing(s, lines.drop_first());
    }
}

/// The number of turns that start in the lines.
pub open spec fn turns_in(lines: Seq<Seq<char>>) -> nat
    decreases lines.len(),
{
    if lines.len() == 0 {
        0
    } else {
        turns_in(lines.drop_first()) + if event_in_line(lines[0]) == Some(Event::<Seq<char>>::TurnStart) {
            1nat
        } else {
            0nat
        }
    }
}

/// The output tokens of the messages in the lines.
pub open spec fn outputs_in(lines: Seq<Seq<char>>) -> Seq<u64>
    decreases lines.len(),
{
    if lines.len() == 0 {
        seq![]
    } else {
        match event_in_line(lines[0]) {
            Some(Event::Message { output_tokens: Some(n), .. }) => seq![n] + outputs_in(
                lines.drop_first(),
            ),
            _ => outputs_in(lines.drop_first()),
        }
    }
}

/// All of these together.
pub open spec fn sum(tokens: Seq<u64>) -> nat
    decreases tokens.len(),
{
    if tokens.len() == 0 {
        0
    } else {
        tokens[0] as nat + sum(tokens.drop_first())
    }
}

/// The first of these, as many as the history keeps.
pub open spec fn capped(tokens: Seq<u64>) -> Seq<u64> {
    if tokens.len() <= MAX_TOKEN_HISTORY {
        tokens
    } else {
        tokens.take(MAX_TOKEN_HISTORY as int)
    }
}

/// The turns are counted, the output tokens are summed over all messages, and the history holds
/// the first of them, never more than `MAX_TOKEN_HISTORY`.
pub proof fn law_turns_and_tokens_add_up(s: EventsSummary, lines: Seq<Seq<char>>)
    requires
        s.token_history.len() <= MAX_TOKEN_HISTORY,
        run(s, lines).1,
    ensures
        run(s, lines).0.turn_count == s.turn_count + turns_in(lines),
        run(s, lines).0.total_output_tokens == s.total_output_tokens + sum(outputs_in(lines)),
        run(s, lines).0.token_history == capped(s.token_history + outputs_in(lines)),
        run(s, lines).0.token_history.len() <= MAX_TOKEN_HISTORY,
    decreases lines.len(),
{
    if lines.len() == 0 {
        assert(s.token_history + outputs_in(lines) =~= s.token_history);
    } else {
        let next = s.step(lines[0])->0;
        let rest = outputs_in(lines.drop_first());
        law_turns_and_tokens_add_up(next, lines.drop_first());
        if let Some(Event::Message { output_tokens: Some(n), .. }) = event_in_line(lines[0]) {
            assert((seq![n] + rest).drop_first() =~= rest);
            assert(capped(next.token_history + rest) =~= capped(s.token_history + (seq![n] + rest)));
        }
    }
}

/// Turns and tokens are only ever added to.
pub proof fn law_counts_only_grow(s: EventsSummary, lines: Seq<Seq<char>>)
    ensures
        s.turn_count <= run(s, lines).0.turn_count,
        s.total_output_tokens <= run(s, lines).0.total_output_tokens,
        s.token_history.is_prefix_of(run(s, lines).0.token_history),
    decreases lines.len(),
{
    if lines.len() > 0 {
        if let Some(next) = s.step(lines[0]) {
            law_counts_only_grow(next, lines.drop_first());
            let end = run(next, lines.drop_first()).0.token_history;
            assert(s.token_history.is_prefix_of(next.token_history));
            assert(end.subrange(0, next.token_history.len() as int).subrange(
                0,
                s.token_history.len() as int,
            ) =~= end.subrange(0, s.token_history.len() as int));
        }
    }
}

/// A line holds the event that its JSON document is, carriage returns at its end aside.
pub proof fn law_line_holds_a_document(document: Seq<char>, ends: Seq<char>)
    requires
        document.len() > 0 ==> document.last() != '\r',
        forall|i: int| 0 <= i < ends.len() ==> #[trigger] ends[i] == '\r',
    ensures
        document.len() > 0 ==> event_in_line(document + ends) == (match json_parse(document) {
            Some(json) => event_of(json),
            None => None,
        }),
        event_in_line(ends) is None,
{
    let none = Seq::<char>::empty();
    law_trimming_takes_the_back_off(document, ends, Trim::Return);
    law_trimming_takes_the_back_off(none, ends, Trim::Return);
    assert(none + ends =~= ends);
}

/// The string under the key of an optional object.
pub open spec fn text_under(data: Option<Json>, key: Seq<char>) -> Option<Seq<char>> {
    match data {
        Some(Json::Object(members)) => if members.contains_key(key) {
            match members[key] {
                Json::Text(text) => Some(text),
                _ => None,
            }
        } else {
            None
        },
        _ => None,
    }
}

/// The number under the key of an optional object.
pub open spec fn number_under(data: Option<Json>, key: Seq<char>) -> Option<u64> {
    match data {
        Some(Json::Object(members)) => if members.contains_key(key) {
            match members[key] {
                Json::Unsigned(n) => Some(n),
                _ => None,
            }
        } else {
            None
        },
        _ => None,
    }
}

proof fn lemma_kinds_differ()
    ensures
        "assistant.message"@ != "assistant.turn_start"@,
        "session.start"@ != "assistant.turn_start"@,
        "session.start"@ != "assistant.message"@,
        "session.resume"@ != "assistant.turn_start"@,
        "session.resume"@ != "assistant.message"@,
        "session.model_change"@ != "assistant.turn_start"@,
        "session.model_change"@ != "assistant.message"@,
        "session.model_change"@ != "session.start"@,
        "session.model_change"@ != "session.resume"@,
        "session.compaction_start"@ != "assistant.turn_start"@,
        "session.compaction_start"@ != "assistant.message"@,
        "session.compaction_start"@ != "session.start"@,
        "session.compaction_start"@ != "session.resume"@,
        "session.compaction_start"@ != "session.model_change"@,
{
    reveal_strlit("assistant.turn_start");
    reveal_strlit("assistant.message");
    reveal_strlit("session.start");
    reveal_strlit("session.resume");
    reveal_strlit("session.model_change");
    reveal_strlit("session.compaction_start");
    assert("assistant.message"@.len() == 17);
    assert("assistant.turn_start"@.len() == 20);
    assert("session.start"@.len() == 13);
    assert("session.resume"@.len() == 14);
    assert("session.model_change"@.len() == 20);
    assert("session.compaction_start"@.len() == 24);
    assert("session.model_change"@[0] != "assistant.turn_start"@[0]);
}

/// A document is an event where it is an object with a string as its type; the type says which, and
/// which members of its data are read.
pub proof fn law_type_says_which_event(members: Map<Seq<char>, Json>, kind: Seq<char>)
    requires
        members.contains_key("type"@),
        members["type"@] == Json::Text(kind),
    ensures
        ({
            let data = if members.contains_key("data"@) {
                Some(members["data"@])
            } else {
                None
            };
            let event = event_of(Json::Object(members));
            &&& kind == "assistant.turn_start"@ ==> event == Some(Event::<Seq<char>>::TurnStart)
            &&& kind == "assistant.message"@ ==> event == Some(
                Event::Message {
                    output_tokens: number_under(data, "outputTokens"@),
                    model: text_under(data, "model"@),
                },
            )
            &&& kind == "session.start"@ || kind == "session.resume"@ ==> event == Some(
                Event::SessionStart {
                    model: text_under(data, "selectedModel"@),
                    effort: text_under(data, "reasoningEffort"@),
                },
            )
            &&& kind == "session.model_change"@ ==> event == Some(
                Event::ModelChange {
                    model: text_under(data, "newModel"@),
                    effort: text_under(data, "reasoningEffort"@),
                },
            )
            &&& kind == "session.compaction_start"@ ==> event == Some(
                Event::<Seq<char>>::CompactionStart {
                    current_tokens: number_under(data, "currentTokens"@),
                    token_limit: number_under(data, "tokenLimit"@),
                },
            )
            &&& kind != "assistant.turn_start"@ && kind != "assistant.message"@ && kind
                != "session.start"@ && kind != "session.resume"@ && kind != "session.model_change"@
                && kind != "session.compaction_start"@ ==> event == Some(
                Event::<Seq<char>>::Unknown,
            )
        }),
{
    lemma_kinds_differ();
}

/// What is no object, or has no string as its type, is no event.
pub proof fn law_no_type_is_no_event(json: Json)
    ensures
        !(json is Object) ==> event_of(json) is None,
        json matches Json::Object(members) && !(members.contains_key("type"@) && members["type"@]
            is Text) ==> event_of(json) is None,
{
}

/// A turn that starts counts one turn more and nothing else.
pub proof fn law_turn_is_counted(s: EventsSummary)
    ensures
        s.after(Event::TurnStart) == (EventsSummary { turn_count: s.turn_count + 1, ..s }),
{
}

/// The tokens of a message are added, and kept in the history while it has room; its model, where
/// it names one, is the model from then on. Nothing else changes.
pub proof fn law_message_adds_tokens_and_tells_the_model(
    s: EventsSummary,
    tokens: u64,
    name: Seq<char>,
)
    requires
        name.len() > 0,
    ensures
        ({
            let after = s.after(Event::Message { output_tokens: Some(tokens), model: Some(name) });
            &&& after.total_output_tokens == s.total_output_tokens + tokens
            &&& s.token_history.len() < MAX_TOKEN_HISTORY ==> after.token_history
                == s.token_history.push(tokens)
            &&& s.token_history.len() >= MAX_TOKEN_HISTORY ==> after.token_history
                == s.token_history
            &&& after.model == name
            &&& after == EventsSummary {
                total_output_tokens: after.total_output_tokens,
                token_history: after.token_history,
                model: after.model,
                ..s
            }
            &&& s.after(Event::Message { output_tokens: None, model: Some(name) })
                == EventsSummary { model: name, ..s }
            &&& s.after(Event::Message { output_tokens: Some(tokens), model: None })
                == EventsSummary { model: s.model, ..after }
            &&& s.after(
                Event::Message { output_tokens: Some(tokens), model: Some(Seq::<char>::empty()) },
            ) == EventsSummary { model: s.model, ..after }
            &&& s.after(Event::Message { output_tokens: None, model: None }) == s
        }),
{
}

/// The model and the effort that a session begins with are taken where none is known.
pub proof fn law_session_start_fills_what_is_unknown(
    s: EventsSummary,
    model: Seq<char>,
    effort: Seq<char>,
)
    ensures
        ({
            let after = s.after(Event::SessionStart { model: Some(model), effort: Some(effort) });
            &&& s.model.len() == 0 ==> after.model == model
            &&& s.effort.len() == 0 ==> after.effort == effort
            &&& after == EventsSummary { model: after.model, effort: after.effort, ..s }
            &&& s.after(Event::SessionStart { model: Some(model), effort: None })
                == EventsSummary { effort: s.effort, ..after }
            &&& s.after(Event::SessionStart { model: None, effort: Some(effort) })
                == EventsSummary { model: s.model, ..after }
            &&& s.after(Event::SessionStart { model: None, effort: None }) == s
        }),
{
}

/// A switch of the model or the effort takes effect whatever was known before; only a model without
/// a name does not.
pub proof fn law_model_change_takes_effect(s: EventsSummary, name: Seq<char>, level: Seq<char>)
    requires
        name.len() > 0,
    ensures
        s.after(Event::ModelChange { model: Some(name), effort: Some(level) }) == (EventsSummary {
            model: name,
            effort: level,
            ..s
        }),
        s.after(Event::ModelChange { model: Some(name), effort: None }) == (EventsSummary {
            model: name,
            ..s
        }),
        s.after(Event::ModelChange { model: None, effort: Some(level) }) == (EventsSummary {
            effort: level,
            ..s
        }),
        s.after(Event::ModelChange { model: Some(Seq::<char>::empty()), effort: Some(level) }) == (
        EventsSummary { effort: level, ..s }),
        s.after(Event::ModelChange { model: Some(Seq::<char>::empty()), effort: None }) == s,
        s.after(Event::<Seq<char>>::ModelChange { model: None, effort: None }) == s,
{
}

/// A compaction tells the tokens in the context and the size of its window, each where it is given.
pub proof fn law_compaction_tells_the_context(s: EventsSummary, current: u64, limit: u64)
    ensures
        s.after(
            Event::<Seq<char>>::CompactionStart {
                current_tokens: Some(current),
                token_limit: Some(limit),
            },
        ) == (EventsSummary { context_tokens: current, context_window: limit, ..s }),
        s.after(
            Event::<Seq<char>>::CompactionStart { current_tokens: Some(current), token_limit: None },
        ) == (EventsSummary { context_tokens: current, ..s }),
        s.after(
            Event::<Seq<char>>::CompactionStart { current_tokens: None, token_limit: Some(limit) },
        ) == (EventsSummary { context_window: limit, ..s }),
        s.after(Event::<Seq<char>>::CompactionStart { current_tokens: None, token_limit: None })
            == s,
        s.after(Event::Unknown) == s,
{
}

/// The model that an event names live: a message or a model change that carries a name.
pub open spec fn live_model(event: Option<Event<Seq<char>>>) -> Option<Seq<char>> {
    match event {
        Some(Event::Message { model: Some(name), .. }) => if name.len() > 0 {
            Some(name)
        } else {
            None
        },
        Some(Event::ModelChange { model: Some(name), .. }) => if name.len() > 0 {
            Some(name)
        } else {
            None
        },
        _ => None,
    }
}

/// The effort that an event sets live: a model change that carries one.
pub open spec fn live_effort(event: Option<Event<Seq<char>>>) -> Option<Seq<char>> {
    match event {
        Some(Event::ModelChange { effort: Some(level), .. }) => Some(level),
        _ => None,
    }
}

/// The tokens in the context that an event tells.
pub open spec fn told_tokens(event: Option<Event<Seq<char>>>) -> Option<u64> {
    match event {
        Some(Event::CompactionStart { current_tokens, .. }) => current_tokens,
        _ => None,
    }
}

/// The size of the context window that an event tells.
pub open spec fn told_window(event: Option<Event<Seq<char>>>) -> Option<u64> {
    match event {
        Some(Event::CompactionStart { token_limit, .. }) => token_limit,
        _ => None,
    }
}

/// The model is the one that the last event to name one live has named; the same holds of the
/// effort, of the tokens in the context and of the size of its window.
pub proof fn law_last_one_heard_counts(s: EventsSummary, lines: Seq<Seq<char>>, k: int)
    requires
        run(s, lines).1,
        0 <= k < lines.len(),
    ensures
        ({
            let end = run(s, lines).0;
            let event = event_in_line(lines[k]);
            &&& live_model(event) is Some && (forall|j: int|
                k < j < lines.len() ==> live_model(event_in_line(#[trigger] lines[j])) is None)
                ==> end.model == live_model(event)->0
            &&& live_effort(event) is Some && live_effort(event)->0.len() > 0 && (forall|j: int|
                k < j < lines.len() ==> live_effort(event_in_line(#[trigger] lines[j])) is None)
                ==> end.effort == live_effort(event)->0
            &&& told_tokens(event) is Some && (forall|j: int|
                k < j < lines.len() ==> told_tokens(event_in_line(#[trigger] lines[j])) is None)
                ==> end.context_tokens == told_tokens(event)->0
            &&& told_window(event) is Some && (forall|j: int|
                k < j < lines.len() ==> told_window(event_in_line(#[trigger] lines[j])) is None)
                ==> end.context_window == told_window(event)->0
        }),
    decreases lines.len(),
{
    let next = s.step(lines[0])->0;
    let rest = lines.drop_first();
    assert forall|j: int| 0 <= j < rest.len() implies #[trigger] rest[j] == lines[j + 1] by {}
    if k > 0 {
        law_last_one_heard_counts(next, rest, k - 1);
    } else {
        lemma_nothing_heard_keeps(next, rest);
    }
}

/// What no line speaks of stays as it is.
proof fn lemma_nothing_heard_keeps(s: EventsSummary, lines: Seq<Seq<char>>)
    ensures
        s.model.len() > 0 && (forall|j: int|
            0 <= j < lines.len() ==> live_model(event_in_line(#[trigger] lines[j])) is None)
            ==> run(s, lines).0.model == s.model,
        s.effort.len() > 0 && (forall|j: int|
            0 <= j < lines.len() ==> live_effort(event_in_line(#[trigger] lines[j])) is None)
            ==> run(s, lines).0.effort == s.effort,
        (forall|j: int|
            0 <= j < lines.len() ==> told_tokens(event_in_line(#[trigger] lines[j])) is None)
            ==> run(s, lines).0.context_tokens == s.context_tokens,
        (forall|j: int|
            0 <= j < lines.len() ==> told_window(event_in_line(#[trigger] lines[j])) is None)
            ==> run(s, lines).0.context_window == s.context_window,
    decreases lines.len(),
{
    if lines.len() > 0 {
        let rest = lines.drop_first();
        let first = lines[0];
        assert forall|j: int| 0 <= j < rest.len() implies #[trigger] rest[j] == lines[j + 1] by {}
        if let Some(next) = s.step(first) {
            lemma_nothing_heard_keeps(next, rest);
        }
    }
}

/// What was heard last stays while no line speaks of it.
pub proof fn law_unspoken_of_stays(s: EventsSummary, lines: Seq<Seq<char>>)
    ensures
        s.model.len() > 0 && (forall|j: int|
            0 <= j < lines.len() ==> live_model(event_in_line(#[trigger] lines[j])) is None)
            ==> run(s, lines).0.model == s.model,
        s.effort.len() > 0 && (forall|j: int|
            0 <= j < lines.len() ==> live_effort(event_in_line(#[trigger] lines[j])) is None)
            ==> run(s, lines).0.effort == s.effort,
{
    lemma_nothing_heard_keeps(s, lines);
}

/// A line is refused only where its event makes a counter too large, and is taken in full
/// otherwise.
pub proof fn law_only_counters_refuse_a_line(s: EventsSummary, line: Seq<char>)
    requires
        s.turn_count <= u32::MAX,
        s.total_output_tokens <= u64::MAX,
    ensures
        s.step(line) is None <==> match event_in_line(line) {
            Some(Event::TurnStart) => s.turn_count == u32::MAX,
            Some(Event::Message { output_tokens: Some(n), .. }) => s.total_output_tokens + n
                > u64::MAX,
            _ => false,
        },
        s.step(line) is Some ==> s.step(line)->0 == (match event_in_line(line) {
            Some(event) => s.after(event),
            None => s,
        }),
        s.after_line(line) == (match event_in_line(line) {
            Some(event) => s.after(event),
            None => s,
        }),
{
}

/// An events result shows every one of its fields as it is.
pub proof fn law_events_result_shows_its_fields(r: EventsResult)
    ensures
        r@.turn_count == r.turn_count,
        r@.total_output_tokens == r.total_output_tokens,
        r@.model == r.model@,
        r@.context_tokens == r.context_tokens,
        r@.context_window == r.context_window,
        r@.effort == r.effort@,
        r@.token_history == r.token_history@,
        r.summary() == r@,
{
}

} // verus!
