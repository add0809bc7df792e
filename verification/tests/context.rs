use forge_ai::context::budget_messages;
use forge_ai::model::{ChatMessage, Settings};

fn message(role: &str, content: &str) -> ChatMessage {
    ChatMessage { role: role.to_string(), content: content.to_string() }
}

fn settings(budget: u64, limit: usize) -> Settings {
    Settings {
        theme: "dark".to_string(),
        automatic_fallback: true,
        context_token_budget: budget,
        context_message_limit: limit,
        fallback_connection_ids: vec![],
        token_allowances: vec![],
    }
}

#[test]
fn newest_message_always_kept() {
    let messages = vec![message("user", "old message"), message("user", &"x".repeat(400))];
    let selected = budget_messages(&messages, &settings(1, 10));
    assert_eq!(selected.len(), 1);
    assert_eq!(selected[0].content.len(), 400);
}

#[test]
fn message_limit_keeps_newest_in_order() {
    let messages: Vec<ChatMessage> = (0..5).map(|i| message("user", &format!("m{i}"))).collect();
    let selected = budget_messages(&messages, &settings(12_000, 3));
    let contents: Vec<&str> = selected.iter().map(|m| m.content.as_str()).collect();
    assert_eq!(contents, vec!["m2", "m3", "m4"]);
}

#[test]
fn token_budget_trims_older_messages() {
    // 40 characters estimate to 10 tokens each; a budget of 25 fits two.
    let messages: Vec<ChatMessage> = (0..4).map(|i| message("user", &format!("{i}").repeat(40))).collect();
    let selected = budget_messages(&messages, &settings(25, 24));
    assert_eq!(selected.len(), 2);
    assert!(selected[0].content.starts_with('2'));
    assert!(selected[1].content.starts_with('3'));
}

#[test]
fn short_messages_count_one_token() {
    // Each message of fewer than four characters counts as one token.
    let messages: Vec<ChatMessage> = (0..6).map(|_| message("user", "hi")).collect();
    let selected = budget_messages(&messages, &settings(4, 24));
    assert_eq!(selected.len(), 4);
}

#[test]
fn characters_not_bytes_are_counted() {
    // 8 two-byte characters are 8 characters: 2 tokens.
    let messages = vec![message("user", &"é".repeat(8)), message("user", &"é".repeat(8))];
    let selected = budget_messages(&messages, &settings(4, 24));
    assert_eq!(selected.len(), 2);
    let selected = budget_messages(&messages, &settings(3, 24));
    assert_eq!(selected.len(), 1);
}

#[test]
fn empty_transcript_and_zero_limit() {
    assert!(budget_messages(&[], &settings(100, 10)).is_empty());
    let messages = vec![message("user", "hello")];
    assert!(budget_messages(&messages, &settings(100, 0)).is_empty());
}

#[test]
fn huge_budget_does_not_overflow() {
    let messages = vec![message("user", "a"), message("assistant", "b")];
    let selected = budget_messages(&messages, &settings(u64::MAX, 24));
    assert_eq!(selected.len(), 2);
    assert_eq!(selected[0].role, "user");
}
