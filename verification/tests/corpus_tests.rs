use dialog_core::corpus::{DialogCore, Message, Reply};

fn msg(id: u64, text: &str) -> Message {
    Message { id, text: text.into() }
}

fn rep(text: &str, reply_to_id: u64) -> Reply {
    Reply { text: text.into(), reply_to_id }
}

#[test]
fn construction_groups_and_drops() {
    // Message "b" has no replies and reply "r3" answers no message: both
    // are dropped; the one remaining entry pairs "a" with its two replies.
    let core = DialogCore::new(
        vec![msg(1, "a"), msg(2, "b")],
        vec![rep("r1", 1), rep("r2", 1), rep("r3", 3)],
    );
    assert_eq!(core.len(), 1);
    assert!(!core.is_empty());
    let entry = &core.requests_responses[0];
    assert_eq!(entry.request, "a");
    assert_eq!(entry.responses, vec!["r1".to_string(), "r2".to_string()]);
}

#[test]
fn construction_preserves_message_order() {
    let core = DialogCore::new(
        vec![msg(7, "first"), msg(8, "second"), msg(9, "third")],
        vec![rep("x", 9), rep("y", 7)],
    );
    assert_eq!(core.len(), 2);
    assert_eq!(core.requests_responses[0].request, "first");
    assert_eq!(core.requests_responses[1].request, "third");
    assert_eq!(core.requests_responses[0].responses, vec!["y".to_string()]);
    assert_eq!(core.requests_responses[1].responses, vec!["x".to_string()]);
}

#[test]
fn reply_group_consumed_by_first_message_with_id() {
    // Two messages share an id: only the first consumes the reply group.
    let core = DialogCore::new(
        vec![msg(1, "x"), msg(1, "y")],
        vec![rep("r", 1)],
    );
    assert_eq!(core.len(), 1);
    assert_eq!(core.requests_responses[0].request, "x");
}

#[test]
fn reply_order_within_group_is_kept() {
    let core = DialogCore::new(
        vec![msg(1, "q")],
        vec![rep("first", 1), rep("second", 1), rep("third", 1)],
    );
    assert_eq!(core.len(), 1);
    assert_eq!(
        core.requests_responses[0].responses,
        vec!["first".to_string(), "second".to_string(), "third".to_string()]
    );
}

#[test]
fn empty_construction_yields_empty_index() {
    let core = DialogCore::new(vec![], vec![]);
    assert_eq!(core.len(), 0);
    assert!(core.is_empty());

    // Messages without replies yield no entries either.
    let core = DialogCore::new(vec![msg(1, "a")], vec![]);
    assert!(core.is_empty());

    // Replies without messages yield no entries.
    let core = DialogCore::new(vec![], vec![rep("r", 1)]);
    assert!(core.is_empty());
}
