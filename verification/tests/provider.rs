use forge_ai::json::Json;
use forge_ai::model::{ChatMessage, Connection};
use forge_ai::provider::{
    chat_body, chat_call, connected_summary, discovered_model_names, discovery_auth, discovery_url, gemini_role,
    ollama_prompt, read_reply, strip_prefix_all, Auth, Dialect,
};

fn connection(kind: &str, key: &str) -> Connection {
    Connection {
        id: "c".to_string(),
        name: "Conn".to_string(),
        kind: kind.to_string(),
        base_url: " http://host:11434/ ".to_string(),
        api_key: key.to_string(),
        has_api_key: !key.is_empty(),
        default_model: "m".to_string(),
        enabled: true,
        input_cost_per_million_bits: 0,
        output_cost_per_million_bits: 0,
    }
}

fn text(s: &str) -> Json {
    Json::Text(s.to_string())
}

fn object(entries: Vec<(&str, Json)>) -> Json {
    Json::Object(entries.into_iter().map(|(k, v)| (k.to_string(), v)).collect())
}

#[test]
fn discovery_urls_per_kind() {
    assert_eq!(discovery_url(&connection("local_ollama", "")), "http://host:11434/api/tags");
    assert_eq!(discovery_url(&connection("remote_ollama", "")), "http://host:11434/api/tags");
    assert_eq!(discovery_url(&connection("gemini", "k")), "http://host:11434/models?key=k");
    assert_eq!(discovery_url(&connection("openai", "k")), "http://host:11434/models");
    assert_eq!(discovery_url(&connection("my_ollama", "k")), "http://host:11434/models");
}

#[test]
fn discovery_auth_per_kind() {
    assert_eq!(discovery_auth(&connection("openai", "")), Auth::NoAuth);
    assert_eq!(discovery_auth(&connection("my_ollama", "k")), Auth::NoAuth);
    assert_eq!(discovery_auth(&connection("gemini", "k")), Auth::NoAuth);
    assert_eq!(discovery_auth(&connection("anthropic", "k")), Auth::AnthropicKey);
    assert_eq!(discovery_auth(&connection("openai", "k")), Auth::Bearer);
}

#[test]
fn chat_calls_per_kind() {
    let call = chat_call(&connection("local_ollama", "k"), "llama");
    assert_eq!(call.url, "http://host:11434/api/generate");
    assert_eq!(call.dialect, Dialect::Ollama);
    assert!(!call.bearer);
    let call = chat_call(&connection("anthropic", ""), "sonnet");
    assert_eq!(call.url, "http://host:11434/messages");
    assert_eq!(call.dialect, Dialect::Anthropic);
    let call = chat_call(&connection("gemini", "key1"), "gemini-pro");
    assert_eq!(call.url, "http://host:11434/models/gemini-pro:generateContent?key=key1");
    assert_eq!(call.dialect, Dialect::Gemini);
    let call = chat_call(&connection("openai", "k"), "gpt");
    assert_eq!(call.url, "http://host:11434/chat/completions");
    assert_eq!(call.dialect, Dialect::OpenAi);
    assert!(call.bearer);
    assert!(!chat_call(&connection("openai", ""), "gpt").bearer);
}

#[test]
fn prompt_joins_transcript() {
    let messages = vec![
        ChatMessage { role: "user".to_string(), content: "Hi".to_string() },
        ChatMessage { role: "assistant".to_string(), content: "Hello".to_string() },
    ];
    assert_eq!(ollama_prompt(&messages), "user: Hi\n\nassistant: Hello");
    assert_eq!(ollama_prompt(&[]), "");
}

#[test]
fn gemini_roles() {
    assert_eq!(gemini_role("assistant"), "model");
    assert_eq!(gemini_role("user"), "user");
    assert_eq!(gemini_role("system"), "user");
}

#[test]
fn prefix_stripped_repeatedly() {
    assert_eq!(strip_prefix_all("models/models/gemini", "models/"), "gemini");
    assert_eq!(strip_prefix_all("gemini", "models/"), "gemini");
    assert_eq!(strip_prefix_all("x", ""), "x");
}

#[test]
fn ollama_model_names() {
    let reply = object(vec![(
        "models",
        Json::Array(vec![
            object(vec![("name", text("qwen2.5:7b"))]),
            object(vec![("model", text("ignored"))]),
            object(vec![("name", text("models/llama3"))]),
        ]),
    )]);
    assert_eq!(discovered_model_names("local_ollama", &reply), vec!["qwen2.5:7b", "models/llama3"]);
}

#[test]
fn openai_style_model_names() {
    let reply = object(vec![(
        "data",
        Json::Array(vec![
            object(vec![("id", text("gpt-4o"))]),
            object(vec![("name", text("models/gemini-pro"))]),
            object(vec![("id", Json::Number(Some(3))), ("name", text("fallback"))]),
            Json::Null,
        ]),
    )]);
    assert_eq!(discovered_model_names("openai", &reply), vec!["gpt-4o", "gemini-pro", "fallback"]);
    let gemini = object(vec![("models", Json::Array(vec![object(vec![("name", text("models/gemini-1.5"))])]))]);
    assert_eq!(discovered_model_names("gemini", &gemini), vec!["gemini-1.5"]);
    let neither = object(vec![("data", text("not a list"))]);
    assert!(discovered_model_names("openai", &neither).is_empty());
}

#[test]
fn replies_per_dialect() {
    let openai = object(vec![
        (
            "choices",
            Json::Array(vec![object(vec![("message", object(vec![("content", text("Hello!"))]))])]),
        ),
        (
            "usage",
            object(vec![("prompt_tokens", Json::Number(Some(12))), ("completion_tokens", Json::Number(Some(3)))]),
        ),
    ]);
    let r = read_reply(&Dialect::OpenAi, &openai);
    assert_eq!((r.text.as_str(), r.input_tokens, r.output_tokens), ("Hello!", 12, 3));

    let ollama = object(vec![
        ("response", text("hi")),
        ("prompt_eval_count", Json::Number(Some(5))),
        ("eval_count", Json::Number(None)),
    ]);
    let r = read_reply(&Dialect::Ollama, &ollama);
    assert_eq!((r.text.as_str(), r.input_tokens, r.output_tokens), ("hi", 5, 0));

    let anthropic = object(vec![
        ("content", Json::Array(vec![object(vec![("type", text("text")), ("text", text("Sonnet"))])])),
        ("usage", object(vec![("input_tokens", Json::Number(Some(7))), ("output_tokens", Json::Number(Some(2)))])),
    ]);
    let r = read_reply(&Dialect::Anthropic, &anthropic);
    assert_eq!((r.text.as_str(), r.input_tokens, r.output_tokens), ("Sonnet", 7, 2));

    let gemini = object(vec![
        (
            "candidates",
            Json::Array(vec![object(vec![(
                "content",
                object(vec![("parts", Json::Array(vec![object(vec![("text", text("Gem"))])]))]),
            )])]),
        ),
        (
            "usageMetadata",
            object(vec![("promptTokenCount", Json::Number(Some(4))), ("candidatesTokenCount", Json::Number(Some(1)))]),
        ),
    ]);
    let r = read_reply(&Dialect::Gemini, &gemini);
    assert_eq!((r.text.as_str(), r.input_tokens, r.output_tokens), ("Gem", 4, 1));

    let empty = read_reply(&Dialect::Gemini, &Json::Null);
    assert_eq!((empty.text.as_str(), empty.input_tokens, empty.output_tokens), ("", 0, 0));
}

#[test]
fn connection_test_message() {
    assert_eq!(connected_summary(0), "Connected — 0 models available");
    assert_eq!(connected_summary(1), "Connected — 1 model available");
    assert_eq!(connected_summary(12), "Connected — 12 models available");
}

fn field<'a>(j: &'a Json, key: &str) -> &'a Json {
    match j {
        Json::Object(entries) => &entries.iter().find(|(k, _)| k == key).unwrap().1,
        _ => panic!("not an object"),
    }
}

fn keys(j: &Json) -> Vec<&str> {
    match j {
        Json::Object(entries) => entries.iter().map(|(k, _)| k.as_str()).collect(),
        _ => panic!("not an object"),
    }
}

fn text_of(j: &Json) -> &str {
    match j {
        Json::Text(s) => s.as_str(),
        _ => panic!("not a string"),
    }
}

#[test]
fn chat_bodies_per_dialect() {
    let messages = vec![
        ChatMessage { role: "user".to_string(), content: "Hi".to_string() },
        ChatMessage { role: "assistant".to_string(), content: "Hello".to_string() },
    ];
    let ollama = chat_body(&Dialect::Ollama, "llama", &messages);
    assert_eq!(keys(&ollama), vec!["model", "prompt", "stream"]);
    assert_eq!(text_of(field(&ollama, "prompt")), "user: Hi\n\nassistant: Hello");
    assert!(matches!(field(&ollama, "stream"), Json::Bool(false)));

    let anthropic = chat_body(&Dialect::Anthropic, "sonnet", &messages);
    assert_eq!(keys(&anthropic), vec!["model", "max_tokens", "messages"]);
    assert!(matches!(field(&anthropic, "max_tokens"), Json::Number(Some(2048))));
    match field(&anthropic, "messages") {
        Json::Array(items) => {
            assert_eq!(items.len(), 2);
            assert_eq!(text_of(field(&items[1], "role")), "assistant");
            assert_eq!(text_of(field(&items[1], "content")), "Hello");
        }
        _ => panic!("messages is not an array"),
    }

    let gemini = chat_body(&Dialect::Gemini, "gemini-pro", &messages);
    assert_eq!(keys(&gemini), vec!["contents"]);
    match field(&gemini, "contents") {
        Json::Array(items) => {
            assert_eq!(text_of(field(&items[1], "role")), "model");
            match field(&items[0], "parts") {
                Json::Array(parts) => assert_eq!(text_of(field(&parts[0], "text")), "Hi"),
                _ => panic!("parts is not an array"),
            }
        }
        _ => panic!("contents is not an array"),
    }

    let openai = chat_body(&Dialect::OpenAi, "gpt", &messages);
    assert_eq!(keys(&openai), vec!["model", "messages"]);
    assert_eq!(text_of(field(&openai, "model")), "gpt");
}
