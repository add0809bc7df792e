//! Checking settings before they are saved.

use vstd::prelude::*;
use vstd::string::*;

use crate::model::Settings;
use crate::text::same_text;

verus! {

/// The themes the application offers.
pub open spec fn is_known_theme(theme: Seq<char>) -> bool {
    theme == "dark"@ || theme == "light"@ || theme == "system"@
}

/// The outcome of checking settings: accepted, or the message that rejects
/// them.
pub open spec fn settings_check(s: Settings) -> Result<(), Seq<char>> {
    if !is_known_theme(s.theme@) {
        Err("Invalid theme"@)
    } else if s.context_token_budget < 256 || s.context_message_limit == 0 {
        Err("Context limits must be positive"@)
    } else {
        Ok(())
    }
}

/// Checks settings before they are saved: a known theme, a token budget of at
/// least 256 and a message limit of at least one.
pub fn validate_settings(settings: &Settings) -> (checked: Result<(), String>)
    ensures
        match checked {
            Ok(()) => settings_check(*settings) == Ok::<(), Seq<char>>(()),
            Err(m) => settings_check(*settings) == Err::<(), Seq<char>>(m@),
        },
{
    let theme = settings.theme.as_str();
    if !same_text(theme, "dark") && !same_text(theme, "light") && !same_text(theme, "system") {
        return Err(String::from_str("Invalid theme"));
    }
    if settings.context_token_budget < 256 || settings.context_message_limit == 0 {
        return Err(String::from_str("Context limits must be positive"));
    }
    Ok(())
}

/// The default settings are accepted when saved.
pub proof fn lemma_default_settings_accepted(s: Settings)
    requires
        s.theme@ == "dark"@,
        s.context_token_budget == 12_000,
        s.context_message_limit == 24,
    ensures
        settings_check(s) == Ok::<(), Seq<char>>(()),
{
}

} // verus!
