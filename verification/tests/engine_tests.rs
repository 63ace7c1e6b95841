use dialog_core::corpus::{DialogCore, Message, Reply};
use dialog_core::engine::RespondError;

fn msg(id: u64, text: &str) -> Message {
    Message { id, text: text.into() }
}

fn rep(text: &str, reply_to_id: u64) -> Reply {
    Reply { text: text.into(), reply_to_id }
}

fn hello_corpus() -> DialogCore {
    // Entries: ("hello", ["hi!", "hey"]) and ("hello there", ["yo"]).
    DialogCore::new(
        vec![msg(1, "hello"), msg(2, "hello there")],
        vec![rep("hi!", 1), rep("hey", 1), rep("yo", 2)],
    )
}

#[test]
fn exact_match_beats_partial() {
    let core = hello_corpus();
    for _ in 0..16 {
        assert_eq!(core.get_response("hello there"), "yo");
    }
}

#[test]
fn engine_always_answers() {
    // "xyz123" matches nothing; every entry ranks zero and the engine
    // still returns one of the ingested responses.
    let core = hello_corpus();
    for _ in 0..16 {
        let r = core.get_response("xyz123");
        assert!(r == "hi!" || r == "hey" || r == "yo");
    }
}

#[test]
fn response_comes_from_selected_entry() {
    // One entry with several responses: every answer is drawn from them.
    let core = DialogCore::new(
        vec![msg(1, "greetings")],
        vec![rep("hi!", 1), rep("hey", 1)],
    );
    for _ in 0..16 {
        let r = core.get_response("greet");
        assert!(r == "hi!" || r == "hey");
    }
}

#[test]
fn equal_ranks_go_to_the_later_entry() {
    // "hello" aligns contiguously in both entries and skipped trailing
    // characters cost nothing, so the ranks tie and the later entry wins.
    let core = hello_corpus();
    for _ in 0..16 {
        assert_eq!(core.get_response("hello"), "yo");
    }
}

#[test]
fn tie_break_prefers_last_entry() {
    // Two entries with identical request strings: the later one must be
    // selected, whatever the query.
    let core = DialogCore::new(
        vec![msg(1, "same"), msg(2, "same")],
        vec![rep("first", 1), rep("second", 2)],
    );
    for _ in 0..16 {
        assert_eq!(core.get_response("same"), "second");
        assert_eq!(core.get_response("zzz"), "second");
    }
}

#[test]
fn empty_index_is_reported() {
    let core = DialogCore::new(vec![], vec![]);
    let r = core.try_get_response("anything");
    assert!(matches!(r, Err(RespondError::NoCorpusEntries)));
}

#[test]
fn checked_answer_on_non_empty_index() {
    let core = hello_corpus();
    let r = core.try_get_response("hello there");
    assert_eq!(r, Ok("yo".to_string()));
}

#[test]
fn case_insensitive_retrieval() {
    let core = DialogCore::new(
        vec![msg(1, "Good Morning"), msg(2, "ciao")],
        vec![rep("morning!", 1), rep("bye", 2)],
    );
    for _ in 0..8 {
        assert_eq!(core.get_response("GOOD MORNING"), "morning!");
    }
}
