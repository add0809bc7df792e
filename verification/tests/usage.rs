use forge_ai::model::{ChatResult, Connection, TokenAllowance};
use forge_ai::provider::ProviderReply;
use forge_ai::usage::{record_usage, remaining_tokens, summarize_usage, usage_record, usage_sums_fit, USAGE_HISTORY_LIMIT};

fn record(id: &str, name: &str, model: &str, input: u64, output: u64) -> ChatResult {
    ChatResult {
        connection_id: id.to_string(),
        connection_name: name.to_string(),
        model: model.to_string(),
        response: String::new(),
        input_tokens: input,
        output_tokens: output,
        total_tokens: input + output,
        estimated_cost_bits: 0.0f64.to_bits(),
        latency_ms_bits: 0.0f64.to_bits(),
        created_at: 0,
        fallback_attempts: vec![],
    }
}

#[test]
fn history_keeps_newest_thousand() {
    let mut history: Vec<u32> = (0..1000).collect();
    record_usage(&mut history, 1000);
    assert_eq!(history.len(), USAGE_HISTORY_LIMIT);
    assert_eq!(history[0], 1);
    assert_eq!(history[999], 1000);
    let mut short: Vec<u32> = vec![1, 2];
    record_usage(&mut short, 3);
    assert_eq!(short, vec![1, 2, 3]);
}

#[test]
fn summary_groups_by_connection_and_model() {
    let history = vec![
        record("a", "Alpha", "m1", 10, 1),
        record("b", "Beta", "m1", 20, 2),
        record("a", "Alpha renamed", "m2", 30, 3),
        record("a", "Alpha", "m1", 40, 4),
    ];
    assert!(usage_sums_fit(&history));
    let s = summarize_usage(&history, &vec![]);
    assert_eq!(s.total_requests, 4);
    assert_eq!(s.input_tokens, 100);
    assert_eq!(s.output_tokens, 10);
    assert_eq!(s.total_tokens, 110);

    assert_eq!(s.by_connection.len(), 2);
    let a = &s.by_connection[0];
    assert_eq!(a.connection_id, "a");
    assert_eq!(a.connection_name, "Alpha");
    assert_eq!(a.usage.requests, 3);
    assert_eq!(a.usage.input_tokens, 80);
    assert_eq!(a.usage.records, vec![0, 2, 3]);
    assert_eq!(s.by_connection[1].usage.requests, 1);

    let models: Vec<(&str, &str, u64)> = s
        .by_model
        .iter()
        .map(|m| (m.provider_name.as_str(), m.model.as_str(), m.usage.requests))
        .collect();
    assert_eq!(models, vec![("Alpha", "m1", 2), ("Alpha renamed", "m2", 1), ("Beta", "m1", 1)]);
    assert!(s.by_model.iter().all(|m| m.remaining_tokens.is_none()));
    assert_eq!(s.recent, vec![3, 2, 1, 0]);
}

#[test]
fn group_sums_add_up_to_totals() {
    let history: Vec<ChatResult> =
        (0..30).map(|i| record(["a", "b", "c"][i % 3], "N", ["x", "y"][i % 2], i as u64, 1)).collect();
    let s = summarize_usage(&history, &vec![]);
    let by_connection: u64 = s.by_connection.iter().map(|g| g.usage.input_tokens).sum();
    let by_model: u64 = s.by_model.iter().map(|g| g.usage.input_tokens).sum();
    assert_eq!(by_connection, s.input_tokens);
    assert_eq!(by_model, s.input_tokens);
    let requests: u64 = s.by_model.iter().map(|g| g.usage.requests).sum();
    assert_eq!(requests, s.total_requests);
    assert_eq!(s.by_model.len(), 6);
}

#[test]
fn recent_lists_newest_hundred() {
    let history: Vec<ChatResult> = (0..150).map(|i| record("a", "A", "m", i, 0)).collect();
    let s = summarize_usage(&history, &vec![]);
    assert_eq!(s.recent.len(), 100);
    assert_eq!(s.recent[0], 149);
    assert_eq!(s.recent[99], 50);
}

#[test]
fn overflowing_sums_are_detected() {
    let history = vec![record("a", "A", "m", u64::MAX, 0), record("a", "A", "m", 1, 0)];
    assert!(!usage_sums_fit(&history));
    assert!(usage_sums_fit(&vec![]));
}

#[test]
fn model_key_separates_connections() {
    let history = vec![record("a", "Same", "m", 1, 0), record("b", "Same", "m", 2, 0)];
    let s = summarize_usage(&history, &vec![]);
    assert_eq!(s.by_model.len(), 2);
}

#[test]
fn record_of_a_reply() {
    let c = Connection {
        id: "a".to_string(),
        name: "Alpha".to_string(),
        kind: "openai".to_string(),
        base_url: String::new(),
        api_key: String::new(),
        has_api_key: false,
        default_model: "m".to_string(),
        enabled: true,
        input_cost_per_million_bits: 0,
        output_cost_per_million_bits: 0,
    };
    let reply = ProviderReply { text: "hi".to_string(), input_tokens: 3, output_tokens: 4 };
    let r = usage_record(&c, "gpt".to_string(), reply, 1.5f64.to_bits(), 2.0f64.to_bits(), 99, vec!["x: y".to_string()]);
    assert_eq!(r.total_tokens, 7);
    assert_eq!(r.connection_name, "Alpha");
    assert_eq!(f64::from_bits(r.estimated_cost_bits), 1.5);
    assert_eq!(r.fallback_attempts, vec!["x: y"]);
}

fn allowance(id: &str, model: &str, tokens: u64) -> TokenAllowance {
    TokenAllowance { connection_id: id.to_string(), model: model.to_string(), tokens }
}

#[test]
fn model_pairs_are_not_merged_by_separators() {
    let history = vec![record("a\0b", "N", "c", 1, 0), record("a", "N", "b\0c", 2, 0)];
    let s = summarize_usage(&history, &vec![]);
    assert_eq!(s.by_model.len(), 2);
    assert_eq!(s.by_connection.len(), 2);
}

#[test]
fn remaining_allowance_per_model() {
    let history = vec![record("a", "A", "m1", 30, 10), record("a", "A", "m2", 5, 5), record("b", "B", "m1", 1, 1)];
    let allowances = vec![allowance("a", "m1", 100), allowance("a", "m2", 4), allowance("a", "m1", 7)];
    let s = summarize_usage(&history, &allowances);
    let rows: Vec<(&str, &str, Option<u64>)> =
        s.by_model.iter().map(|m| (m.connection_id.as_str(), m.model.as_str(), m.remaining_tokens)).collect();
    assert_eq!(rows, vec![("a", "m1", Some(60)), ("a", "m2", Some(0)), ("b", "m1", None)]);
}

#[test]
fn remaining_tokens_lookup() {
    let allowances = vec![allowance("a", "m", 10)];
    assert_eq!(remaining_tokens(&allowances, &"a".to_string(), &"m".to_string(), 3), Some(7));
    assert_eq!(remaining_tokens(&allowances, &"a".to_string(), &"m".to_string(), 10), Some(0));
    assert_eq!(remaining_tokens(&allowances, &"a".to_string(), &"m".to_string(), 11), Some(0));
    assert_eq!(remaining_tokens(&allowances, &"a".to_string(), &"x".to_string(), 3), None);
}
