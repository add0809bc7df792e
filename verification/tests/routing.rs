use forge_ai::model::{Connection, Settings};
use forge_ai::routing::{after_failure, fallback_start, next_step, order_candidates, request_model, ChatStep};

fn connection(id: &str, enabled: bool) -> Connection {
    Connection {
        id: id.to_string(),
        name: format!("Name {id}"),
        kind: "openai".to_string(),
        base_url: "https://api.example.com/v1".to_string(),
        api_key: String::new(),
        has_api_key: false,
        default_model: format!("model-{id}"),
        enabled,
        input_cost_per_million_bits: 0,
        output_cost_per_million_bits: 0,
    }
}

fn settings(fallback: bool, ids: &[&str]) -> Settings {
    Settings {
        theme: "dark".to_string(),
        automatic_fallback: fallback,
        context_token_budget: 12_000,
        context_message_limit: 24,
        fallback_connection_ids: ids.iter().map(|s| s.to_string()).collect(),
        token_allowances: vec![],
    }
}

fn ids(list: &[Connection]) -> Vec<String> {
    list.iter().map(|c| c.id.clone()).collect()
}

#[test]
fn requested_then_configured_then_rest() {
    let cs = vec![connection("a", true), connection("b", true), connection("c", true), connection("d", false)];
    let ordered = order_candidates(&cs, &"b".to_string(), &settings(true, &["c", "d", "b"]));
    assert_eq!(ids(&ordered), vec!["b", "c", "a"]);
}

#[test]
fn disabled_requested_connection_is_skipped() {
    let cs = vec![connection("a", true), connection("b", false)];
    let ordered = order_candidates(&cs, &"b".to_string(), &settings(true, &[]));
    assert_eq!(ids(&ordered), vec!["a"]);
}

#[test]
fn without_automatic_fallback_only_first_is_tried() {
    let cs = vec![connection("a", true), connection("b", true)];
    let ordered = order_candidates(&cs, &"b".to_string(), &settings(false, &["a"]));
    assert_eq!(ids(&ordered), vec!["b"]);
    let ordered = order_candidates(&cs, &"zzz".to_string(), &settings(false, &[]));
    assert_eq!(ids(&ordered), vec!["a"]);
}

#[test]
fn repeated_fallback_ids_are_tried_twice() {
    let cs = vec![connection("a", true), connection("b", true)];
    let ordered = order_candidates(&cs, &"a".to_string(), &settings(true, &["b", "b"]));
    assert_eq!(ids(&ordered), vec!["a", "b", "b"]);
}

#[test]
fn requested_model_only_for_requested_connection() {
    let a = connection("a", true);
    let b = connection("b", true);
    assert_eq!(request_model(&a, &"a".to_string(), &"gpt-x".to_string()), "gpt-x");
    assert_eq!(request_model(&b, &"a".to_string(), &"gpt-x".to_string()), "model-b");
    assert_eq!(request_model(&a, &"a".to_string(), &"   ".to_string()), "model-a");
    assert_eq!(request_model(&a, &"a".to_string(), &" gpt-x ".to_string()), " gpt-x ");
}

#[test]
fn fallback_steps_collect_failures() {
    let cs = vec![connection("a", true), connection("b", true)];
    let requested = "a".to_string();
    let model = String::new();
    let mut state = fallback_start();
    match next_step(&state, &cs, &requested, &model) {
        ChatStep::Send { candidate, model } => {
            assert_eq!(candidate, 0);
            assert_eq!(model, "model-a");
        }
        ChatStep::GiveUp { .. } => panic!("expected a send"),
    }
    after_failure(&mut state, &cs, "timeout");
    after_failure(&mut state, &cs, "401 Unauthorized");
    assert_eq!(state.failures, vec!["Name a: timeout", "Name b: 401 Unauthorized"]);
    match next_step(&state, &cs, &requested, &model) {
        ChatStep::GiveUp { message } => assert_eq!(
            message,
            "All available providers failed: Name a: timeout | Name b: 401 Unauthorized"
        ),
        ChatStep::Send { .. } => panic!("expected to give up"),
    }
}

#[test]
fn no_candidates_gives_up_with_empty_list() {
    let state = fallback_start();
    match next_step(&state, &vec![], &"a".to_string(), &String::new()) {
        ChatStep::GiveUp { message } => assert_eq!(message, "All available providers failed: "),
        ChatStep::Send { .. } => panic!("expected to give up"),
    }
}
