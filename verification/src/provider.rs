//! Addressing providers and reading their replies: discovery and chat
//! endpoints per connection kind, authentication, request prompts, the model
//! list of a discovery reply and the text and token counts of a chat reply.

use vstd::prelude::*;
use vstd::string::*;

use crate::json::{
    as_count, as_elements, as_text, count_of, elements_of, field, element, found, get_element,
    get_field, text_of, Json,
};
use crate::model::{ChatMessage, Connection};
use crate::text::{
    chars_of, concat, contains, contains_text, decimal, decimal_text, joined, normalized,
    normalized_url, same_text, strip_prefix_repeatedly,
};

verus! {

/// How a request authenticates.
#[derive(Debug, PartialEq, Eq, Structural)]
pub enum Auth {
    /// No credentials are sent.
    NoAuth,
    /// The key goes in an `x-api-key` header, with an `anthropic-version` header.
    AnthropicKey,
    /// The key goes in a bearer `Authorization` header.
    Bearer,
}

/// The request and reply format of a provider.
#[derive(Debug, PartialEq, Eq, Structural)]
pub enum Dialect {
    Ollama,
    Anthropic,
    Gemini,
    OpenAi,
}

/// The kind names the two Ollama connection types.
pub open spec fn is_ollama_kind(kind: Seq<char>) -> bool {
    kind == "local_ollama"@ || kind == "remote_ollama"@
}

fn ollama_kind(kind: &str) -> (r: bool)
    ensures
        r == is_ollama_kind(kind@),
{
    same_text(kind, "local_ollama") || same_text(kind, "remote_ollama")
}

/// How model discovery authenticates: not at all without a key or for
/// Ollama-like and Gemini connections, with Anthropic's header for Anthropic,
/// and with a bearer token otherwise.
pub open spec fn discovery_auth_for(kind: Seq<char>, key: Seq<char>) -> Auth {
    if key.len() == 0 || contains_text(kind, "ollama"@) || kind == "gemini"@ {
        Auth::NoAuth
    } else if kind == "anthropic"@ {
        Auth::AnthropicKey
    } else {
        Auth::Bearer
    }
}

/// How model discovery authenticates for this connection.
pub fn discovery_auth(connection: &Connection) -> (auth: Auth)
    ensures
        auth == discovery_auth_for(connection.kind@, connection.api_key@),
{
    let kind = connection.kind.as_str();
    if connection.api_key.as_str().is_empty() || contains(kind, "ollama") || same_text(kind, "gemini") {
        Auth::NoAuth
    } else if same_text(kind, "anthropic") {
        Auth::AnthropicKey
    } else {
        Auth::Bearer
    }
}

/// The model list URL of a connection with the given kind, base URL and key.
pub open spec fn discovery_url_for(kind: Seq<char>, base: Seq<char>, key: Seq<char>) -> Seq<char> {
    if is_ollama_kind(kind) {
        base + "/api/tags"@
    } else if kind == "gemini"@ {
        base + "/models?key="@ + key
    } else {
        base + "/models"@
    }
}

/// The model list URL of a connection, on its normalized base URL.
pub fn discovery_url(connection: &Connection) -> (url: String)
    ensures
        url@ == discovery_url_for(connection.kind@, normalized_url(connection.base_url@), connection.api_key@),
{
    let base = normalized(connection.base_url.as_str());
    let kind = connection.kind.as_str();
    if ollama_kind(kind) {
        concat(base.as_str(), "/api/tags")
    } else if same_text(kind, "gemini") {
        let mut url = concat(base.as_str(), "/models?key=");
        url.append(connection.api_key.as_str());
        url
    } else {
        concat(base.as_str(), "/models")
    }
}

/// The dialect spoken with a connection of this kind.
pub open spec fn dialect_for(kind: Seq<char>) -> Dialect {
    if is_ollama_kind(kind) {
        Dialect::Ollama
    } else if kind == "anthropic"@ {
        Dialect::Anthropic
    } else if kind == "gemini"@ {
        Dialect::Gemini
    } else {
        Dialect::OpenAi
    }
}

/// The chat URL for a dialect, base URL, model and key.
pub open spec fn chat_url_for(dialect: Dialect, base: Seq<char>, model: Seq<char>, key: Seq<char>) -> Seq<char> {
    match dialect {
        Dialect::Ollama => base + "/api/generate"@,
        Dialect::Anthropic => base + "/messages"@,
        Dialect::Gemini => base + "/models/"@ + model + ":generateContent?key="@ + key,
        Dialect::OpenAi => base + "/chat/completions"@,
    }
}

/// Which endpoint and dialect a chat goes to, by connection kind: both Ollama
/// kinds post to `/api/generate` in Ollama's dialect, Anthropic to
/// `/messages`, Gemini to its model's `generateContent` with the key in the
/// URL, and every other kind to the OpenAI-style `/chat/completions`.
pub proof fn lemma_chat_call_by_kind(kind: Seq<char>, base: Seq<char>, model: Seq<char>, key: Seq<char>)
    ensures
        kind == "local_ollama"@ || kind == "remote_ollama"@ ==> dialect_for(kind) == Dialect::Ollama && chat_url_for(
            dialect_for(kind),
            base,
            model,
            key,
        ) == base + "/api/generate"@,
        kind == "anthropic"@ ==> dialect_for(kind) == Dialect::Anthropic && chat_url_for(dialect_for(kind), base, model, key)
            == base + "/messages"@,
        kind == "gemini"@ ==> dialect_for(kind) == Dialect::Gemini && chat_url_for(dialect_for(kind), base, model, key)
            == base + "/models/"@ + model + ":generateContent?key="@ + key,
        kind != "local_ollama"@ && kind != "remote_ollama"@ && kind != "anthropic"@ && kind != "gemini"@ ==> dialect_for(
            kind,
        ) == Dialect::OpenAi && chat_url_for(dialect_for(kind), base, model, key) == base + "/chat/completions"@,
{
    reveal_strlit("local_ollama");
    reveal_strlit("remote_ollama");
    reveal_strlit("anthropic");
    reveal_strlit("gemini");
    assert("local_ollama"@.len() == 12 && "remote_ollama"@.len() == 13);
    assert("anthropic"@.len() == 9 && "gemini"@.len() == 6);
}

/// A chat request to send: where, in which dialect, and whether the key goes
/// in a bearer header. Anthropic requests always carry the key in their own
/// header; Gemini requests carry it in the URL.
#[derive(Debug)]
pub struct ChatCall {
    pub url: String,
    pub dialect: Dialect,
    pub bearer: bool,
}

/// The chat request for a connection and model.
pub fn chat_call(connection: &Connection, model: &str) -> (call: ChatCall)
    ensures
        call.dialect == dialect_for(connection.kind@),
        call.url@ == chat_url_for(call.dialect, normalized_url(connection.base_url@), model@, connection.api_key@),
        call.bearer == (call.dialect == Dialect::OpenAi && connection.api_key@.len() > 0),
        connection.kind@ == "local_ollama"@ || connection.kind@ == "remote_ollama"@ ==> call.dialect
            == Dialect::Ollama && call.url@ == normalized_url(connection.base_url@) + "/api/generate"@ && !call.bearer,
{
    proof {
        lemma_chat_call_by_kind(connection.kind@, normalized_url(connection.base_url@), model@, connection.api_key@);
    }
    let base = normalized(connection.base_url.as_str());
    let kind = connection.kind.as_str();
    if ollama_kind(kind) {
        ChatCall { url: concat(base.as_str(), "/api/generate"), dialect: Dialect::Ollama, bearer: false }
    } else if same_text(kind, "anthropic") {
        ChatCall { url: concat(base.as_str(), "/messages"), dialect: Dialect::Anthropic, bearer: false }
    } else if same_text(kind, "gemini") {
        let mut url = concat(base.as_str(), "/models/");
        url.append(model);
        url.append(":generateContent?key=");
        url.append(connection.api_key.as_str());
        ChatCall { url, dialect: Dialect::Gemini, bearer: false }
    } else {
        let bearer = !connection.api_key.as_str().is_empty();
        ChatCall { url: concat(base.as_str(), "/chat/completions"), dialect: Dialect::OpenAi, bearer }
    }
}

/// One transcript line of the Ollama prompt: `role: content`.
pub open spec fn prompt_line(m: ChatMessage) -> Seq<char> {
    m.role@ + ": "@ + m.content@
}

/// The Ollama prompt: the transcript lines separated by blank lines.
pub open spec fn prompt_for(messages: Seq<ChatMessage>) -> Seq<char> {
    joined(messages.map_values(|m: ChatMessage| prompt_line(m)), "\n\n"@)
}

/// The Ollama prompt for a transcript.
pub fn ollama_prompt(messages: &[ChatMessage]) -> (prompt: String)
    ensures
        prompt@ == prompt_for(messages@),
{
    let ghost lines = messages@.map_values(|m: ChatMessage| prompt_line(m));
    let mut prompt = String::new();
    let mut i: usize = 0;
    while i < messages.len()
        invariant
            i <= messages@.len(),
            lines == messages@.map_values(|m: ChatMessage| prompt_line(m)),
            prompt@ == joined(lines.take(i as int), "\n\n"@),
        decreases messages@.len() - i,
    {
        assert(lines.take(i + 1).drop_last() =~= lines.take(i as int));
        if i != 0 {
            prompt.append("\n\n");
        }
        prompt.append(messages[i].role.as_str());
        prompt.append(": ");
        prompt.append(messages[i].content.as_str());
        i = i + 1;
    }
    assert(lines.take(messages@.len() as int) =~= lines);
    prompt
}

/// Gemini's name for a transcript role: `model` for the assistant, `user`
/// for everything else.
pub fn gemini_role(role: &str) -> (r: &'static str)
    ensures
        r@ == (if role@ == "assistant"@ {
            "model"@
        } else {
            "user"@
        }),
{
    if same_text(role, "assistant") {
        "model"
    } else {
        "user"
    }
}

/// `s` without every leading occurrence of `prefix`, repeatedly.
pub fn strip_prefix_all(s: &str, prefix: &str) -> (r: String)
    ensures
        r@ == strip_prefix_repeatedly(s@, prefix@),
{
    let c = chars_of(s);
    let p = chars_of(prefix);
    let n = c.len();
    let m = p.len();
    let mut pos: usize = 0;
    assert(s@.subrange(0, n as int) =~= s@);
    if m == 0 {
        return String::from_str(s);
    }
    loop
        invariant
            c@ == s@,
            p@ == prefix@,
            n == s@.len(),
            m == prefix@.len(),
            m > 0,
            pos <= n,
            strip_prefix_repeatedly(s@, prefix@) == strip_prefix_repeatedly(s@.subrange(pos as int, n as int), prefix@),
        decreases n - pos,
    {
        let rest = n - pos;
        let mut matches = m <= rest;
        if matches {
            let mut j: usize = 0;
            while j < m
                invariant
                    c@ == s@,
                    p@ == prefix@,
                    n == s@.len(),
                    m == prefix@.len(),
                    pos + m <= n,
                    j <= m,
                    matches == (forall|k: int| 0 <= k < j ==> s@[pos + k] == prefix@[k]),
                decreases m - j,
            {
                if c[pos + j] != p[j] {
                    matches = false;
                }
                j = j + 1;
            }
        }
        let ghost sub = s@.subrange(pos as int, n as int);
        if matches {
            assert(sub.subrange(0, m as int) =~= prefix@);
            assert(sub.subrange(m as int, sub.len() as int) =~= s@.subrange(pos + m, n as int));
            pos = pos + m;
        } else {
            assert(m <= sub.len() ==> sub.subrange(0, m as int) != prefix@) by {
                if m <= sub.len() {
                    let k = choose|k: int| 0 <= k < m && s@[pos + k] != prefix@[k];
                    assert(sub.subrange(0, m as int)[k] == s@[pos + k]);
                }
            }
            return String::from_str(s.substring_char(pos, n));
        }
    }
}

/// The model name a discovery entry gives: for Ollama-like connections its
/// `name`; otherwise its `id`, or else its `name`, without leading `models/`.
pub open spec fn discovered_name(ollama: bool, entry: Json) -> Option<Seq<char>> {
    if ollama {
        text_of(field(entry, "name"@))
    } else {
        match text_of(field(entry, "id"@)) {
            Some(s) => Some(strip_prefix_repeatedly(s, "models/"@)),
            None => match text_of(field(entry, "name"@)) {
                Some(s) => Some(strip_prefix_repeatedly(s, "models/"@)),
                None => None,
            },
        }
    }
}

/// The entries of a discovery reply: its `models` array for Ollama-like
/// connections; otherwise its `data` array, or else its `models` array.
pub open spec fn discovery_entries(ollama: bool, reply: Json) -> Seq<Json> {
    if ollama {
        match elements_of(field(reply, "models"@)) {
            Some(xs) => xs,
            None => Seq::empty(),
        }
    } else {
        match elements_of(field(reply, "data"@)) {
            Some(xs) => xs,
            None => match elements_of(field(reply, "models"@)) {
                Some(xs) => xs,
                None => Seq::empty(),
            },
        }
    }
}

/// The model names of a discovery reply, in order; entries without a name
/// are skipped.
pub open spec fn discovered_models(kind: Seq<char>, reply: Json) -> Seq<Seq<char>> {
    let ollama = contains_text(kind, "ollama"@);
    discovery_entries(ollama, reply).filter_map(|e: Json| discovered_name(ollama, e))
}

/// Which name a discovery entry gives. For a kind without "ollama": its
/// string `id` without leading `models/`, whatever its `name` holds; its
/// `name` only when it has no string `id`; nothing when it has neither. For
/// an Ollama-like kind: its string `name`, as it is.
pub proof fn lemma_discovery_entry_prefers_id(entry: Json)
    ensures
        discovered_name(true, entry) == text_of(field(entry, "name"@)),
        text_of(field(entry, "id"@)) matches Some(id) ==> discovered_name(false, entry) == Some(
            strip_prefix_repeatedly(id, "models/"@),
        ),
        text_of(field(entry, "id"@)) is None ==> discovered_name(false, entry) == (match text_of(
            field(entry, "name"@),
        ) {
            Some(name) => Some(strip_prefix_repeatedly(name, "models/"@)),
            None => None,
        }),
{
}

proof fn lemma_filter_map_all_some<A, B>(xs: Seq<A>, f: spec_fn(A) -> Option<B>)
    requires
        forall|k: int| 0 <= k < xs.len() ==> (#[trigger] f(xs[k])) is Some,
    ensures
        xs.filter_map(f).len() == xs.len(),
        forall|k: int| 0 <= k < xs.len() ==> #[trigger] xs.filter_map(f)[k] == f(xs[k])->0,
    decreases xs.len(),
{
    if xs.len() > 0 {
        let rest = xs.drop_last();
        assert forall|k: int| 0 <= k < rest.len() implies (#[trigger] f(rest[k])) is Some by {
            assert(rest[k] == xs[k]);
            assert(f(xs[k]) is Some);
        }
        lemma_filter_map_all_some(rest, f);
        assert(f(xs[xs.len() - 1]) is Some);
        assert forall|k: int| 0 <= k < xs.len() implies #[trigger] xs.filter_map(f)[k] == f(xs[k])->0 by {
            if k < rest.len() {
                assert(rest[k] == xs[k]);
                assert(rest.filter_map(f)[k] == f(rest[k])->0);
            }
        }
    }
}

/// For a kind without "ollama", a discovery reply whose `data` entries all
/// carry a string `id` lists exactly those ids, in order, each without
/// leading `models/`.
pub proof fn lemma_discovery_lists_ids(kind: Seq<char>, reply: Json, xs: Seq<Json>)
    requires
        !contains_text(kind, "ollama"@),
        elements_of(field(reply, "data"@)) == Some(xs),
        forall|k: int| 0 <= k < xs.len() ==> (#[trigger] text_of(field(xs[k], "id"@))) is Some,
    ensures
        discovered_models(kind, reply).len() == xs.len(),
        forall|k: int|
            0 <= k < xs.len() ==> #[trigger] discovered_models(kind, reply)[k] == strip_prefix_repeatedly(
                text_of(field(xs[k], "id"@))->0,
                "models/"@,
            ),
{
    let f = |e: Json| discovered_name(false, e);
    assert(discovery_entries(false, reply) == xs);
    assert forall|k: int| 0 <= k < xs.len() implies (#[trigger] f(xs[k])) is Some by {
        assert(text_of(field(xs[k], "id"@)) is Some);
        lemma_discovery_entry_prefers_id(xs[k]);
    }
    lemma_filter_map_all_some(xs, f);
    assert(discovered_models(kind, reply) == xs.filter_map(f));
    assert forall|k: int| 0 <= k < xs.len() implies #[trigger] discovered_models(kind, reply)[k]
        == strip_prefix_repeatedly(text_of(field(xs[k], "id"@))->0, "models/"@) by {
        assert(xs.filter_map(f)[k] == f(xs[k])->0);
        lemma_discovery_entry_prefers_id(xs[k]);
    }
}

fn entry_name(ollama: bool, entry: &Json) -> (name: Option<String>)
    ensures
        match name {
            Some(s) => discovered_name(ollama, *entry) == Some(s@),
            None => discovered_name(ollama, *entry) is None,
        },
{
    let e = Some(entry);
    if ollama {
        match as_text(get_field(e, "name")) {
            Some(s) => Some(s.clone()),
            None => None,
        }
    } else {
        match as_text(get_field(e, "id")) {
            Some(s) => Some(strip_prefix_all(s.as_str(), "models/")),
            None => match as_text(get_field(e, "name")) {
                Some(s) => Some(strip_prefix_all(s.as_str(), "models/")),
                None => None,
            },
        }
    }
}

/// The model names listed by a discovery reply of a connection of this kind.
pub fn discovered_model_names(kind: &str, reply: &Json) -> (names: Vec<String>)
    ensures
        names@.map_values(|s: String| s@) == discovered_models(kind@, *reply),
{
    let ollama = contains(kind, "ollama");
    let r = Some(reply);
    let entries: Option<&Vec<Json>> = if ollama {
        as_elements(get_field(r, "models"))
    } else {
        match as_elements(get_field(r, "data")) {
            Some(xs) => Some(xs),
            None => as_elements(get_field(r, "models")),
        }
    };
    let mut names: Vec<String> = Vec::new();
    match entries {
        None => {
            assert(discovery_entries(ollama, *reply) =~= Seq::<Json>::empty());
            assert(names@.map_values(|s: String| s@) =~= discovered_models(kind@, *reply));
        },
        Some(xs) => {
            let ghost all = xs@;
            let ghost f = |e: Json| discovered_name(ollama, e);
            assert(all == discovery_entries(ollama, *reply));
            let mut i: usize = 0;
            while i < xs.len()
                invariant
                    i <= all.len(),
                    all == xs@,
                    f == (|e: Json| discovered_name(ollama, e)),
                    names@.map_values(|s: String| s@) == all.take(i as int).filter_map(f),
                decreases all.len() - i,
            {
                proof {
                    all.lemma_filter_map_take_succ(f, i as int);
                }
                let ghost before = names@;
                match entry_name(ollama, &xs[i]) {
                    Some(s) => {
                        names.push(s);
                        assert(names@.map_values(|s: String| s@) =~= before.map_values(|s: String| s@)
                            + seq![f(all[i as int])->0]);
                    },
                    None => {},
                }
                i = i + 1;
            }
            assert(all.take(all.len() as int) =~= all);
        },
    }
    names
}

/// The text and token counts of a provider's chat reply.
#[derive(Debug)]
pub struct ProviderReply {
    pub text: String,
    pub input_tokens: u64,
    pub output_tokens: u64,
}

/// The string at `value`, or the empty string.
pub open spec fn text_or_empty(value: Json) -> Seq<char> {
    match text_of(value) {
        Some(s) => s,
        None => Seq::empty(),
    }
}

/// The count at `value`, or zero.
pub open spec fn count_or_zero(value: Json) -> u64 {
    match count_of(value) {
        Some(n) => n,
        None => 0,
    }
}

/// Where each dialect puts the reply text: Ollama in `response`, Anthropic in
/// `content[0].text`, Gemini in `candidates[0].content.parts[0].text` and
/// OpenAI-style providers in `choices[0].message.content`.
pub open spec fn reply_text_for(dialect: Dialect, reply: Json) -> Seq<char> {
    match dialect {
        Dialect::Ollama => text_or_empty(field(reply, "response"@)),
        Dialect::Anthropic => text_or_empty(field(element(field(reply, "content"@), 0), "text"@)),
        Dialect::Gemini => text_or_empty(
            field(
                element(field(field(element(field(reply, "candidates"@), 0), "content"@), "parts"@), 0),
                "text"@,
            ),
        ),
        Dialect::OpenAi => text_or_empty(
            field(field(element(field(reply, "choices"@), 0), "message"@), "content"@),
        ),
    }
}

/// Where each dialect puts the prompt token count.
pub open spec fn reply_input_tokens_for(dialect: Dialect, reply: Json) -> u64 {
    match dialect {
        Dialect::Ollama => count_or_zero(field(reply, "prompt_eval_count"@)),
        Dialect::Anthropic => count_or_zero(field(field(reply, "usage"@), "input_tokens"@)),
        Dialect::Gemini => count_or_zero(field(field(reply, "usageMetadata"@), "promptTokenCount"@)),
        Dialect::OpenAi => count_or_zero(field(field(reply, "usage"@), "prompt_tokens"@)),
    }
}

/// Where each dialect puts the completion token count.
pub open spec fn reply_output_tokens_for(dialect: Dialect, reply: Json) -> u64 {
    match dialect {
        Dialect::Ollama => count_or_zero(field(reply, "eval_count"@)),
        Dialect::Anthropic => count_or_zero(field(field(reply, "usage"@), "output_tokens"@)),
        Dialect::Gemini => count_or_zero(field(field(reply, "usageMetadata"@), "candidatesTokenCount"@)),
        Dialect::OpenAi => count_or_zero(field(field(reply, "usage"@), "completion_tokens"@)),
    }
}

/// Where the token counts of a reply are read in each dialect: an unsigned
/// integer at that place is the count, anything else counts zero. Ollama
/// gives `prompt_eval_count` and `eval_count` at the top level, Anthropic
/// `usage.input_tokens` and `usage.output_tokens`, Gemini
/// `usageMetadata.promptTokenCount` and `usageMetadata.candidatesTokenCount`,
/// and OpenAI-style providers `usage.prompt_tokens` and
/// `usage.completion_tokens`.
pub proof fn lemma_reply_token_fields(reply: Json)
    ensures
        reply_input_tokens_for(Dialect::Ollama, reply) == (match count_of(field(reply, "prompt_eval_count"@)) {
            Some(n) => n,
            None => 0,
        }),
        reply_output_tokens_for(Dialect::Ollama, reply) == (match count_of(field(reply, "eval_count"@)) {
            Some(n) => n,
            None => 0,
        }),
        reply_input_tokens_for(Dialect::Anthropic, reply) == (match count_of(
            field(field(reply, "usage"@), "input_tokens"@),
        ) {
            Some(n) => n,
            None => 0,
        }),
        reply_output_tokens_for(Dialect::Anthropic, reply) == (match count_of(
            field(field(reply, "usage"@), "output_tokens"@),
        ) {
            Some(n) => n,
            None => 0,
        }),
        reply_input_tokens_for(Dialect::Gemini, reply) == (match count_of(
            field(field(reply, "usageMetadata"@), "promptTokenCount"@),
        ) {
            Some(n) => n,
            None => 0,
        }),
        reply_output_tokens_for(Dialect::Gemini, reply) == (match count_of(
            field(field(reply, "usageMetadata"@), "candidatesTokenCount"@),
        ) {
            Some(n) => n,
            None => 0,
        }),
        reply_input_tokens_for(Dialect::OpenAi, reply) == (match count_of(
            field(field(reply, "usage"@), "prompt_tokens"@),
        ) {
            Some(n) => n,
            None => 0,
        }),
        reply_output_tokens_for(Dialect::OpenAi, reply) == (match count_of(
            field(field(reply, "usage"@), "completion_tokens"@),
        ) {
            Some(n) => n,
            None => 0,
        }),
{
}

fn text_at(value: Option<&Json>) -> (s: String)
    ensures
        s@ == text_or_empty(found(value)),
{
    match as_text(value) {
        Some(t) => t.clone(),
        None => String::new(),
    }
}

fn count_at(value: Option<&Json>) -> (n: u64)
    ensures
        n == count_or_zero(found(value)),
{
    match as_count(value) {
        Some(n) => n,
        None => 0,
    }
}

/// The text and token counts of a successful chat reply in a dialect.
pub fn read_reply(dialect: &Dialect, reply: &Json) -> (r: ProviderReply)
    ensures
        r.text@ == reply_text_for(*dialect, *reply),
        r.input_tokens == reply_input_tokens_for(*dialect, *reply),
        r.output_tokens == reply_output_tokens_for(*dialect, *reply),
        *dialect == Dialect::Ollama ==> r.output_tokens == (match count_of(field(*reply, "eval_count"@)) {
            Some(n) => n,
            None => 0,
        }) && r.input_tokens == (match count_of(field(*reply, "prompt_eval_count"@)) {
            Some(n) => n,
            None => 0,
        }),
{
    proof {
        lemma_reply_token_fields(*reply);
    }
    let v = Some(reply);
    match dialect {
        Dialect::Ollama => ProviderReply {
            text: text_at(get_field(v, "response")),
            input_tokens: count_at(get_field(v, "prompt_eval_count")),
            output_tokens: count_at(get_field(v, "eval_count")),
        },
        Dialect::Anthropic => ProviderReply {
            text: text_at(get_field(get_element(get_field(v, "content"), 0), "text")),
            input_tokens: count_at(get_field(get_field(v, "usage"), "input_tokens")),
            output_tokens: count_at(get_field(get_field(v, "usage"), "output_tokens")),
        },
        Dialect::Gemini => ProviderReply {
            text: text_at(
                get_field(
                    get_element(
                        get_field(get_field(get_element(get_field(v, "candidates"), 0), "content"), "parts"),
                        0,
                    ),
                    "text",
                ),
            ),
            input_tokens: count_at(get_field(get_field(v, "usageMetadata"), "promptTokenCount")),
            output_tokens: count_at(get_field(get_field(v, "usageMetadata"), "candidatesTokenCount")),
        },
        Dialect::OpenAi => ProviderReply {
            text: text_at(get_field(get_field(get_element(get_field(v, "choices"), 0), "message"), "content")),
            input_tokens: count_at(get_field(get_field(v, "usage"), "prompt_tokens")),
            output_tokens: count_at(get_field(get_field(v, "usage"), "completion_tokens")),
        },
    }
}

/// The message of a successful connection test: how many models it lists.
pub open spec fn connected_message(count: nat) -> Seq<char> {
    "Connected — "@ + decimal(count) + " model"@ + (if count == 1 {
        ""@
    } else {
        "s"@
    }) + " available"@
}

/// The message of a successful connection test that found `count` models.
pub fn connected_summary(count: usize) -> (message: String)
    ensures
        message@ == connected_message(count as nat),
{
    let mut message = String::from_str("Connected — ");
    message.append(decimal_text(count as u64).as_str());
    message.append(" model");
    if count == 1 {
        message.append("");
    } else {
        message.append("s");
    }
    message.append(" available");
    message
}

} // verus!

verus! {

proof fn lemma_object_fields(entries: Seq<(String, Json)>, keys: Seq<Seq<char>>)
    requires
        entries.len() == keys.len(),
        forall|i: int| 0 <= i < keys.len() ==> (#[trigger] entries[i]).0@ == keys[i],
        forall|i: int, k: int| 0 <= i < k < keys.len() ==> #[trigger] keys[i] != #[trigger] keys[k],
    ensures
        forall|i: int| 0 <= i < keys.len() ==> crate::json::entry_value(entries, #[trigger] keys[i]) == entries[i].1,
    decreases entries.len(),
{
    if entries.len() > 0 {
        lemma_object_fields(entries.drop_first(), keys.drop_first());
        assert forall|i: int| 0 <= i < keys.len() implies crate::json::entry_value(entries, #[trigger] keys[i])
            == entries[i].1 by {
            if i > 0 {
                assert(keys[0] != keys[i]);
                assert(keys.drop_first()[i - 1] == keys[i]);
            }
        }
    }
}

/// The completion limit sent with every Anthropic request.
pub const ANTHROPIC_MAX_TOKENS: u64 = 2048;

/// `j` is an object whose keys are exactly `keys`, in order.
pub open spec fn has_keys(j: Json, keys: Seq<Seq<char>>) -> bool {
    match j {
        Json::Object(entries) => entries@.len() == keys.len() && forall|i: int|
            0 <= i < keys.len() ==> (#[trigger] entries@[i]).0@ == keys[i],
        _ => false,
    }
}

/// `j` is the JSON string `s`.
pub open spec fn is_text(j: Json, s: Seq<char>) -> bool {
    text_of(j) == Some(s)
}

/// `j` is a transcript message: `{"role": role, "content": content}`.
pub open spec fn is_message_json(j: Json, m: ChatMessage) -> bool {
    &&& has_keys(j, seq!["role"@, "content"@])
    &&& is_text(field(j, "role"@), m.role@)
    &&& is_text(field(j, "content"@), m.content@)
}

/// `j` is an array of the transcript's messages, in order.
pub open spec fn is_messages_json(j: Json, messages: Seq<ChatMessage>) -> bool {
    match j {
        Json::Array(items) => items@.len() == messages.len() && forall|i: int|
            0 <= i < messages.len() ==> is_message_json(#[trigger] items@[i], messages[i]),
        _ => false,
    }
}

/// Gemini's name for a transcript role.
pub open spec fn gemini_role_for(role: Seq<char>) -> Seq<char> {
    if role == "assistant"@ {
        "model"@
    } else {
        "user"@
    }
}

/// `j` is a Gemini content item: `{"role": r, "parts": [{"text": content}]}`.
pub open spec fn is_gemini_content(j: Json, m: ChatMessage) -> bool {
    &&& has_keys(j, seq!["role"@, "parts"@])
    &&& is_text(field(j, "role"@), gemini_role_for(m.role@))
    &&& match field(j, "parts"@) {
        Json::Array(parts) => parts@.len() == 1 && has_keys(parts@[0], seq!["text"@]) && is_text(
            field(parts@[0], "text"@),
            m.content@,
        ),
        _ => false,
    }
}

/// The request body of a chat request in each dialect.
pub open spec fn is_chat_body(body: Json, dialect: Dialect, model: Seq<char>, messages: Seq<ChatMessage>) -> bool {
    match dialect {
        Dialect::Ollama => {
            &&& has_keys(body, seq!["model"@, "prompt"@, "stream"@])
            &&& is_text(field(body, "model"@), model)
            &&& is_text(field(body, "prompt"@), prompt_for(messages))
            &&& field(body, "stream"@) == Json::Bool(false)
        },
        Dialect::Anthropic => {
            &&& has_keys(body, seq!["model"@, "max_tokens"@, "messages"@])
            &&& is_text(field(body, "model"@), model)
            &&& field(body, "max_tokens"@) == Json::Number(Some(ANTHROPIC_MAX_TOKENS))
            &&& is_messages_json(field(body, "messages"@), messages)
        },
        Dialect::Gemini => {
            &&& has_keys(body, seq!["contents"@])
            &&& match field(body, "contents"@) {
                Json::Array(items) => items@.len() == messages.len() && forall|i: int|
                    0 <= i < messages.len() ==> is_gemini_content(#[trigger] items@[i], messages[i]),
                _ => false,
            }
        },
        Dialect::OpenAi => {
            &&& has_keys(body, seq!["model"@, "messages"@])
            &&& is_text(field(body, "model"@), model)
            &&& is_messages_json(field(body, "messages"@), messages)
        },
    }
}

fn text_json(s: &str) -> (j: Json)
    ensures
        is_text(j, s@),
{
    Json::Text(String::from_str(s))
}

fn message_json(m: &ChatMessage) -> (j: Json)
    ensures
        is_message_json(j, *m),
{
    proof {
        reveal_strlit("role");
        reveal_strlit("content");
    }
    let mut entries: Vec<(String, Json)> = Vec::new();
    entries.push((String::from_str("role"), text_json(m.role.as_str())));
    entries.push((String::from_str("content"), text_json(m.content.as_str())));
    proof {
        let keys = seq!["role"@, "content"@];
        assert(keys[0].len() != keys[1].len());
        lemma_object_fields(entries@, keys);
        assert(crate::json::entry_value(entries@, keys[0]) == entries@[0].1);
        assert(crate::json::entry_value(entries@, keys[1]) == entries@[1].1);
    }
    Json::Object(entries)
}

fn messages_json(messages: &[ChatMessage]) -> (j: Json)
    ensures
        is_messages_json(j, messages@),
{
    let mut items: Vec<Json> = Vec::new();
    let mut i: usize = 0;
    while i < messages.len()
        invariant
            i <= messages@.len(),
            items@.len() == i,
            forall|k: int| 0 <= k < i ==> is_message_json(#[trigger] items@[k], messages@[k]),
        decreases messages@.len() - i,
    {
        items.push(message_json(&messages[i]));
        i = i + 1;
    }
    Json::Array(items)
}

fn gemini_content(m: &ChatMessage) -> (j: Json)
    ensures
        is_gemini_content(j, *m),
{
    proof {
        reveal_strlit("role");
        reveal_strlit("parts");
        reveal_strlit("text");
    }
    let mut part: Vec<(String, Json)> = Vec::new();
    part.push((String::from_str("text"), text_json(m.content.as_str())));
    let ghost part_view = part@;
    let mut parts: Vec<Json> = Vec::new();
    parts.push(Json::Object(part));
    let ghost parts_view = parts@;
    let mut entries: Vec<(String, Json)> = Vec::new();
    entries.push((String::from_str("role"), text_json(gemini_role(m.role.as_str()))));
    entries.push((String::from_str("parts"), Json::Array(parts)));
    proof {
        let keys = seq!["role"@, "parts"@];
        assert(keys[0].len() != keys[1].len());
        lemma_object_fields(entries@, keys);
        assert(crate::json::entry_value(entries@, keys[0]) == entries@[0].1);
        assert(crate::json::entry_value(entries@, keys[1]) == entries@[1].1);
        let tkeys = seq!["text"@];
        lemma_object_fields(part_view, tkeys);
        assert(crate::json::entry_value(part_view, tkeys[0]) == part_view[0].1);
        assert(parts_view[0] == Json::Object(part));
    }
    Json::Object(entries)
}

/// The request body of a chat request in a dialect, for a model and a
/// transcript.
pub fn chat_body(dialect: &Dialect, model: &str, messages: &[ChatMessage]) -> (body: Json)
    ensures
        is_chat_body(body, *dialect, model@, messages@),
{
    proof {
        reveal_strlit("model");
        reveal_strlit("prompt");
        reveal_strlit("stream");
        reveal_strlit("max_tokens");
        reveal_strlit("messages");
        reveal_strlit("contents");
    }
    let mut entries: Vec<(String, Json)> = Vec::new();
    match dialect {
        Dialect::Ollama => {
            entries.push((String::from_str("model"), text_json(model)));
            entries.push((String::from_str("prompt"), Json::Text(ollama_prompt(messages))));
            entries.push((String::from_str("stream"), Json::Bool(false)));
            proof {
                let keys = seq!["model"@, "prompt"@, "stream"@];
                assert(keys[0].len() != keys[1].len() && keys[0].len() != keys[2].len());
                assert(keys[1][0] != keys[2][0]);
                lemma_object_fields(entries@, keys);
                assert(crate::json::entry_value(entries@, keys[0]) == entries@[0].1);
                assert(crate::json::entry_value(entries@, keys[1]) == entries@[1].1);
                assert(crate::json::entry_value(entries@, keys[2]) == entries@[2].1);
            }
        },
        Dialect::Anthropic => {
            entries.push((String::from_str("model"), text_json(model)));
            entries.push((String::from_str("max_tokens"), Json::Number(Some(ANTHROPIC_MAX_TOKENS))));
            entries.push((String::from_str("messages"), messages_json(messages)));
            proof {
                let keys = seq!["model"@, "max_tokens"@, "messages"@];
                assert(keys[0].len() != keys[1].len() && keys[0].len() != keys[2].len() && keys[1].len() != keys[2].len());
                lemma_object_fields(entries@, keys);
                assert(crate::json::entry_value(entries@, keys[0]) == entries@[0].1);
                assert(crate::json::entry_value(entries@, keys[1]) == entries@[1].1);
                assert(crate::json::entry_value(entries@, keys[2]) == entries@[2].1);
            }
        },
        Dialect::Gemini => {
            let mut items: Vec<Json> = Vec::new();
            let mut i: usize = 0;
            while i < messages.len()
                invariant
                    i <= messages@.len(),
                    items@.len() == i,
                    forall|k: int| 0 <= k < i ==> is_gemini_content(#[trigger] items@[k], messages@[k]),
                decreases messages@.len() - i,
            {
                items.push(gemini_content(&messages[i]));
                i = i + 1;
            }
            entries.push((String::from_str("contents"), Json::Array(items)));
            proof {
                let keys = seq!["contents"@];
                lemma_object_fields(entries@, keys);
                assert(crate::json::entry_value(entries@, keys[0]) == entries@[0].1);
            }
        },
        Dialect::OpenAi => {
            entries.push((String::from_str("model"), text_json(model)));
            entries.push((String::from_str("messages"), messages_json(messages)));
            proof {
                let keys = seq!["model"@, "messages"@];
                assert(keys[0].len() != keys[1].len());
                lemma_object_fields(entries@, keys);
                assert(crate::json::entry_value(entries@, keys[0]) == entries@[0].1);
                assert(crate::json::entry_value(entries@, keys[1]) == entries@[1].1);
            }
        },
    }
    Json::Object(entries)
}

} // verus!
