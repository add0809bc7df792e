use forge_ai::model::{enabled_default, Settings};
use forge_ai::settings::validate_settings;
use forge_ai::system::{epoch, path, seconds_or_zero};

#[test]
fn default_settings() {
    let s = Settings::default();
    assert_eq!(s.theme, "dark");
    assert!(s.automatic_fallback);
    assert_eq!(s.context_token_budget, 12_000);
    assert_eq!(s.context_message_limit, 24);
    assert!(s.fallback_connection_ids.is_empty());
    assert!(s.token_allowances.is_empty());
    assert_eq!(validate_settings(&s), Ok(()));
    assert!(enabled_default());
}

#[test]
fn settings_are_checked() {
    let mut s = Settings::default();
    for theme in ["light", "system"] {
        s.theme = theme.to_string();
        assert_eq!(validate_settings(&s), Ok(()));
    }
    s.theme = "blue".to_string();
    assert_eq!(validate_settings(&s), Err("Invalid theme".to_string()));
    s.theme = "dark".to_string();
    s.context_token_budget = 255;
    assert_eq!(validate_settings(&s), Err("Context limits must be positive".to_string()));
    s.context_token_budget = 256;
    s.context_message_limit = 0;
    assert_eq!(validate_settings(&s), Err("Context limits must be positive".to_string()));
    s.context_message_limit = 1;
    assert_eq!(validate_settings(&s), Ok(()));
}

#[test]
fn data_file_path_and_clock() {
    let dir = std::path::PathBuf::from("/data/Forge AI");
    assert_eq!(path(&dir, "settings.json"), std::path::PathBuf::from("/data/Forge AI/settings.json"));
    assert!(epoch() > 1_600_000_000);
}

#[test]
fn seconds_before_the_epoch_are_zero() {
    assert_eq!(seconds_or_zero(Some(1_700_000_000)), 1_700_000_000);
    assert_eq!(seconds_or_zero(None), 0);
}
