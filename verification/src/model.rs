//! The records that Forge AI keeps: connections, chat messages,
//! conversations, settings and usage records.

use vstd::prelude::*;
use vstd::string::*;

verus! {

/// Whether a connection read without an `enabled` flag counts as enabled.
pub fn enabled_default() -> (enabled: bool)
    ensures
        enabled,
{
    true
}

/// One message of a chat transcript.
#[derive(Debug)]
pub struct ChatMessage {
    pub role: String,
    pub content: String,
}

impl ChatMessage {
    /// An identical message with its own storage.
    pub fn duplicate(&self) -> (copy: Self)
        ensures
            copy == *self,
    {
        ChatMessage { role: self.role.clone(), content: self.content.clone() }
    }
}

/// A provider connection. Prices are held as the bit patterns of IEEE-754
/// binary64 values, exactly as the floating-point numbers they stand for.
#[derive(Debug)]
pub struct Connection {
    pub id: String,
    pub name: String,
    pub kind: String,
    pub base_url: String,
    pub api_key: String,
    pub has_api_key: bool,
    pub default_model: String,
    pub enabled: bool,
    pub input_cost_per_million_bits: u64,
    pub output_cost_per_million_bits: u64,
}

impl Connection {
    /// An identical connection with its own storage.
    pub fn duplicate(&self) -> (copy: Self)
        ensures
            copy == *self,
    {
        Connection {
            id: self.id.clone(),
            name: self.name.clone(),
            kind: self.kind.clone(),
            base_url: self.base_url.clone(),
            api_key: self.api_key.clone(),
            has_api_key: self.has_api_key,
            default_model: self.default_model.clone(),
            enabled: self.enabled,
            input_cost_per_million_bits: self.input_cost_per_million_bits,
            output_cost_per_million_bits: self.output_cost_per_million_bits,
        }
    }
}

/// A saved conversation.
#[derive(Debug)]
pub struct Conversation {
    pub id: String,
    pub title: String,
    pub connection_id: String,
    pub model: String,
    pub messages: Vec<ChatMessage>,
    pub updated_at: u64,
}

/// A token allowance the user set for one model of one connection.
#[derive(Debug)]
pub struct TokenAllowance {
    pub connection_id: String,
    pub model: String,
    pub tokens: u64,
}

/// User settings.
#[derive(Debug)]
pub struct Settings {
    pub theme: String,
    pub automatic_fallback: bool,
    pub context_token_budget: u64,
    pub context_message_limit: usize,
    pub fallback_connection_ids: Vec<String>,
    /// Optional token allowances, keyed by connection id and model.
    pub token_allowances: Vec<TokenAllowance>,
}

impl Default for Settings {
    fn default() -> (s: Self)
        ensures
            s.theme@ == "dark"@,
            s.automatic_fallback,
            s.context_token_budget == 12_000,
            s.context_message_limit == 24,
            s.fallback_connection_ids@.len() == 0,
            s.token_allowances@.len() == 0,
    {
        Settings {
            theme: String::from_str("dark"),
            automatic_fallback: true,
            context_token_budget: 12_000,
            context_message_limit: 24,
            fallback_connection_ids: Vec::new(),
            token_allowances: Vec::new(),
        }
    }
}

/// One recorded provider reply. The estimated cost and the latency are held
/// as the bit patterns of IEEE-754 binary64 values.
#[derive(Debug)]
pub struct ChatResult {
    pub connection_id: String,
    pub connection_name: String,
    pub model: String,
    pub response: String,
    pub input_tokens: u64,
    pub output_tokens: u64,
    pub total_tokens: u64,
    pub estimated_cost_bits: u64,
    pub latency_ms_bits: u64,
    pub created_at: u64,
    pub fallback_attempts: Vec<String>,
}

} // verus!

verus! {

impl crate::records::HasId for Connection {
    open spec fn id_view(&self) -> Seq<char> {
        self.id@
    }

    fn id_text(&self) -> (id: &String) {
        &self.id
    }
}

impl crate::records::HasId for Conversation {
    open spec fn id_view(&self) -> Seq<char> {
        self.id@
    }

    fn id_text(&self) -> (id: &String) {
        &self.id
    }
}

} // verus!
