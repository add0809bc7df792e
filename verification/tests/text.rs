use forge_ai::text::{contains, decimal_text, join, less_text, normalized, trimmed};

#[test]
fn normalized_trims_and_strips_slashes() {
    assert_eq!(normalized("  https://api.openai.com/v1/  "), "https://api.openai.com/v1");
    assert_eq!(normalized("http://x///"), "http://x");
    assert_eq!(normalized("\u{3000}http://x/\t"), "http://x");
    assert_eq!(normalized("a/ /"), "a/ ");
    assert_eq!(normalized("   "), "");
    assert_eq!(normalized("///"), "");
}

#[test]
fn trim_matches_std() {
    for s in ["", " a ", "\u{a0}b\u{2029}", "\u{200b}x", "x\u{85}", "\n\r\tz \u{1680}"] {
        assert_eq!(trimmed(s), s.trim());
    }
}

#[test]
fn substring_search() {
    assert!(contains("remote_ollama", "ollama"));
    assert!(contains("x", ""));
    assert!(!contains("olla", "ollama"));
    assert!(!contains("gemini", "ollama"));
}

#[test]
fn join_and_decimal() {
    assert_eq!(join(&vec!["a".to_string(), "b".to_string()], " | "), "a | b");
    assert_eq!(join(&vec![], ", "), "");
    assert_eq!(decimal_text(0), "0");
    assert_eq!(decimal_text(1050), "1050");
    assert_eq!(decimal_text(u64::MAX), u64::MAX.to_string());
}

#[test]
fn lexicographic_order_matches_str() {
    let cases = [("", "a"), ("a", ""), ("ab", "abc"), ("b", "abc"), ("Z", "a"), ("é", "z"), ("same", "same")];
    for (a, b) in cases {
        assert_eq!(less_text(a, b), a < b);
    }
}
