//! Choosing between what the event stream, the log and the settings say.
use crate::text::{chars_contain, chars_of, contains_text, law_text_stands_where_it_was_put};
use vstd::prelude::*;

verus! {

/// The first of the two texts that is not empty.
pub open spec fn first_text(live: Seq<char>, fallback: Seq<char>) -> Seq<char> {
    if live.len() == 0 {
        fallback
    } else {
        live
    }
}

/// The first of the two numbers that is not 0.
pub open spec fn first_number(live: int, fallback: int) -> int {
    if live > 0 {
        live
    } else {
        fallback
    }
}

/// The size of the context window in tokens, as the name of the model tells it.
pub open spec fn model_window(model: Seq<char>) -> u64 {
    if contains_text(model, "[1m]"@) {
        1_000_000
    } else {
        200_000
    }
}

/// The size of the context window: live, or from the log, or as the model has it.
pub open spec fn window(events_window: u64, log_window: u64, model: Seq<char>) -> u64 {
    if events_window > 0 {
        events_window
    } else if log_window > 0 {
        log_window
    } else {
        model_window(model)
    }
}

/// The live model; the configured one while the session has named none.
pub fn resolved_model(events_model: &str, fallback: &str) -> (r: String)
    ensures
        r@ == first_text(events_model@, fallback@),
        events_model@.len() > 0 ==> r@ == events_model@,
        events_model@.len() == 0 ==> r@ == fallback@,
{
    if events_model.is_empty() {
        fallback.to_owned()
    } else {
        events_model.to_owned()
    }
}

/// The live reasoning effort; the configured one while the session has named none.
pub fn resolved_effort(events_effort: &str, fallback: &str) -> (r: String)
    ensures
        r@ == first_text(events_effort@, fallback@),
        events_effort@.len() > 0 ==> r@ == events_effort@,
        events_effort@.len() == 0 ==> r@ == fallback@,
{
    if events_effort.is_empty() {
        fallback.to_owned()
    } else {
        events_effort.to_owned()
    }
}

/// The live number of turns; the one from the log while there is none.
pub fn resolved_turn_count(events_turns: u32, log_turns: u32) -> (r: u32)
    ensures
        r == first_number(events_turns as int, log_turns as int),
        events_turns > 0 ==> r == events_turns,
        events_turns == 0 ==> r == log_turns,
{
    if events_turns > 0 {
        events_turns
    } else {
        log_turns
    }
}

/// The live number of tokens in the context; the one from the log while there is none.
pub fn resolved_context_tokens(events_tokens: u64, log_tokens: u64) -> (r: u64)
    ensures
        r == first_number(events_tokens as int, log_tokens as int),
        events_tokens > 0 ==> r == events_tokens,
        events_tokens == 0 ==> r == log_tokens,
{
    if events_tokens > 0 {
        events_tokens
    } else {
        log_tokens
    }
}

/// The size of the context window in tokens, as the name of the model tells it.
pub fn context_window_for_model(model: &str) -> (r: u64)
    ensures
        r == model_window(model@),
        contains_text(model@, "[1m]"@) ==> r == 1_000_000,
        !contains_text(model@, "[1m]"@) ==> r == 200_000,
{
    let cs = chars_of(model);
    if chars_contain(cs.as_slice(), "[1m]") {
        1_000_000
    } else {
        200_000
    }
}

/// The live size of the context window; the one from the log while there is none, and failing
/// both, the one that the name of the model tells.
pub fn resolved_context_window(events_window: u64, log_window: u64, model: &str) -> (r: u64)
    ensures
        r == window(events_window, log_window, model@),
        events_window > 0 ==> r == events_window,
        events_window == 0 && log_window > 0 ==> r == log_window,
        events_window == 0 && log_window == 0 && contains_text(model@, "[1m]"@) ==> r == 1_000_000,
        events_window == 0 && log_window == 0 && !contains_text(model@, "[1m]"@) ==> r == 200_000,
{
    if events_window > 0 {
        events_window
    } else if log_window > 0 {
        log_window
    } else {
        context_window_for_model(model)
    }
}

/// What is live counts before what is a fallback, which counts only while nothing is live; the name
/// of the model tells the size of the window only where neither the events nor the log do.
pub proof fn law_live_counts_first(
    live: Seq<char>,
    fallback: Seq<char>,
    a: u64,
    b: u64,
    front: Seq<char>,
    back: Seq<char>,
)
    ensures
        live.len() > 0 ==> first_text(live, fallback) == live,
        first_text(Seq::<char>::empty(), fallback) == fallback,
        a > 0 ==> first_number(a as int, b as int) == a,
        first_number(0, b as int) == b,
        a > 0 ==> window(a, b, live) == a,
        b > 0 ==> window(0, b, live) == b,
        window(0, 0, front + "[1m]"@ + back) == 1_000_000,
        !contains_text(live, "[1m]"@) ==> window(0, 0, live) == 200_000,
{
    law_text_stands_where_it_was_put(front, "[1m]"@, back);
}

} // verus!
