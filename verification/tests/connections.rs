use forge_ai::connections::{
    apply_stored_key, check_connection, legacy_key_positions, credential_unavailable, key_to_store, key_write_failed,
    public_connection, public_connections, saved_connection, stored_after_moves, stored_key_in_file, valid_price,
};
use forge_ai::model::Connection;
use forge_ai::records::{remove_by_id, upsert_by_id};

fn connection(id: &str, key: &str) -> Connection {
    Connection {
        id: id.to_string(),
        name: " My OpenAI ".to_string(),
        kind: "openai".to_string(),
        base_url: "  https://api.openai.com/v1//  ".to_string(),
        api_key: key.to_string(),
        has_api_key: false,
        default_model: " gpt-4o ".to_string(),
        enabled: true,
        input_cost_per_million_bits: 2.5f64.to_bits(),
        output_cost_per_million_bits: 10.0f64.to_bits(),
    }
}

#[test]
fn public_connection_drops_key() {
    let c = public_connection(connection("a", "sk-secret"));
    assert_eq!(c.api_key, "");
    assert_eq!(c.id, "a");
    assert_eq!(c.default_model, " gpt-4o ");
}

#[test]
fn listed_connections_hold_no_keys() {
    let items = vec![connection("a", "k1"), connection("b", ""), connection("c", "k3")];
    let listed = public_connections(&items);
    assert_eq!(listed.len(), 3);
    assert!(listed.iter().all(|c| c.api_key.is_empty()));
    assert_eq!(listed[2].id, "c");
}

#[test]
fn stored_key_is_applied() {
    let mut c = connection("a", "");
    apply_stored_key(&mut c, Some("sk-1".to_string()));
    assert_eq!(c.api_key, "sk-1");
    assert!(c.has_api_key);
    apply_stored_key(&mut c, None);
    assert_eq!(c.api_key, "");
    assert!(!c.has_api_key);
    apply_stored_key(&mut c, Some(String::new()));
    assert!(!c.has_api_key);
}

#[test]
fn check_accepts_and_trims() {
    let fields = check_connection(&connection("a", "")).unwrap();
    assert_eq!(fields.name, "My OpenAI");
    assert_eq!(fields.base_url, "https://api.openai.com/v1//");
    assert_eq!(fields.default_model, "gpt-4o");
}

#[test]
fn check_rejects_missing_name() {
    let mut c = connection("a", "");
    c.name = "   ".to_string();
    assert_eq!(check_connection(&c).unwrap_err(), "Connection name is required");
}

#[test]
fn check_rejects_invalid_url() {
    let mut c = connection("a", "");
    c.base_url = "not a url".to_string();
    assert_eq!(check_connection(&c).unwrap_err(), "Enter a valid http:// or https:// base URL");
    c.base_url = "localhost:11434".to_string();
    // Parses with the scheme "localhost", which is not http or https.
    assert_eq!(check_connection(&c).unwrap_err(), "Base URL must use http:// or https://");
}

#[test]
fn check_rejects_other_schemes() {
    let mut c = connection("a", "");
    c.base_url = "ftp://example.com".to_string();
    assert_eq!(check_connection(&c).unwrap_err(), "Base URL must use http:// or https://");
    c.base_url = "HTTP://EXAMPLE.COM".to_string();
    assert!(check_connection(&c).is_ok());
}

#[test]
fn check_rejects_missing_model() {
    let mut c = connection("a", "");
    c.default_model = "\t".to_string();
    assert_eq!(check_connection(&c).unwrap_err(), "A default model is required");
}

#[test]
fn check_rejects_bad_prices() {
    for bad in [-1.0f64, f64::NAN, f64::INFINITY, f64::NEG_INFINITY] {
        let mut c = connection("a", "");
        c.output_cost_per_million_bits = bad.to_bits();
        assert_eq!(check_connection(&c).unwrap_err(), "Token pricing must be zero or a positive number");
    }
}

#[test]
fn price_validity_follows_floats() {
    for x in [0.0f64, -0.0, 1e-300, 5e-324, 1e300, f64::MAX, 3.0] {
        assert_eq!(valid_price(x.to_bits()), x.is_finite() && !(x < 0.0));
    }
    for x in [-5e-324f64, -2.0, f64::NAN, -f64::NAN, f64::INFINITY] {
        assert_eq!(valid_price(x.to_bits()), x.is_finite() && !(x < 0.0));
    }
}

#[test]
fn key_goes_to_credential_store() {
    let entered = key_to_store(&connection("a", "sk-new"), &"sk-old".to_string()).unwrap();
    assert_eq!(entered.key, "sk-new");
    assert!(!entered.migration);
    let migrated = key_to_store(&connection("a", ""), &"sk-old".to_string()).unwrap();
    assert_eq!(migrated.key, "sk-old");
    assert!(migrated.migration);
    assert!(key_to_store(&connection("a", ""), &String::new()).is_none());
}

#[test]
fn legacy_key_found_by_id() {
    let items = vec![connection("a", "k-a"), connection("b", "k-b"), connection("b", "k-b2")];
    assert_eq!(stored_key_in_file(&items, &"b".to_string()), "k-b");
    assert_eq!(stored_key_in_file(&items, &"z".to_string()), "");
}

#[test]
fn credential_messages() {
    assert_eq!(credential_unavailable("no backend"), "Credential storage unavailable: no backend");
    assert_eq!(key_write_failed(false, "denied"), "Could not save API key securely: denied");
    assert_eq!(key_write_failed(true, "denied"), "Could not migrate API key securely: denied");
}

#[test]
fn saved_connection_is_normalized_and_keyless() {
    let c = connection("a", "sk");
    let fields = check_connection(&c).unwrap();
    let saved = saved_connection(c, fields, true);
    assert_eq!(saved.name, "My OpenAI");
    assert_eq!(saved.base_url, "https://api.openai.com/v1");
    assert_eq!(saved.default_model, "gpt-4o");
    assert_eq!(saved.api_key, "");
    assert!(saved.has_api_key);
    let c = connection("b", "");
    let fields = check_connection(&c).unwrap();
    assert!(!saved_connection(c, fields, false).has_api_key);
}

#[test]
fn save_replaces_by_id_or_appends() {
    let mut items = vec![connection("a", ""), connection("b", "")];
    let mut updated = connection("b", "");
    updated.name = "Updated".to_string();
    upsert_by_id(&mut items, updated);
    assert_eq!(items.len(), 2);
    assert_eq!(items[1].name, "Updated");
    upsert_by_id(&mut items, connection("c", ""));
    assert_eq!(items.len(), 3);
    assert_eq!(items[2].id, "c");
}

#[test]
fn delete_removes_every_match() {
    let items = vec![connection("a", ""), connection("b", ""), connection("a", ""), connection("c", "")];
    let kept = remove_by_id(items, &"a".to_string());
    let ids: Vec<&str> = kept.iter().map(|c| c.id.as_str()).collect();
    assert_eq!(ids, vec!["b", "c"]);
}

#[test]
fn legacy_keys_block_the_write_unless_all_moved() {
    let items = vec![connection("a", "k-a"), connection("b", ""), connection("c", "k-c")];
    assert_eq!(legacy_key_positions(&items), vec![0, 2]);
    assert!(stored_after_moves(&items, &vec![true, false, false]).is_none());
    assert!(stored_after_moves(&items, &vec![false, true, true]).is_none());
    let stored = stored_after_moves(&items, &vec![true, false, true]).unwrap();
    let keys: Vec<&str> = stored.iter().map(|c| c.api_key.as_str()).collect();
    assert_eq!(keys, vec!["", "", ""]);
    assert_eq!(stored[0].id, "a");
    assert_eq!(stored[0].default_model, " gpt-4o ");
    assert_eq!(stored[2].id, "c");
}
