//! Provider connections: what is stored and returned of them, how a saved
//! connection is checked and where its API key goes, and how a provider is
//! addressed for model discovery.

use vstd::prelude::*;
use vstd::string::*;

use crate::model::Connection;
use crate::text::{concat, opt_text, normalized, normalized_url, same_text, trim, trimmed};

verus! {

/// `public` is `connection` with its API key removed.
pub open spec fn is_public_copy(connection: Connection, public: Connection) -> bool {
    &&& public.id == connection.id
    &&& public.name == connection.name
    &&& public.kind == connection.kind
    &&& public.base_url == connection.base_url
    &&& public.api_key@ == Seq::<char>::empty()
    &&& public.has_api_key == connection.has_api_key
    &&& public.default_model == connection.default_model
    &&& public.enabled == connection.enabled
    &&& public.input_cost_per_million_bits == connection.input_cost_per_million_bits
    &&& public.output_cost_per_million_bits == connection.output_cost_per_million_bits
}

/// The connection as it may leave the library's storage: without its API key.
pub fn public_connection(connection: Connection) -> (public: Connection)
    ensures
        is_public_copy(connection, public),
{
    let mut public = connection;
    public.api_key = String::new();
    public
}

/// Every connection without its API key, in order.
pub fn public_connections(items: &Vec<Connection>) -> (public: Vec<Connection>)
    ensures
        public@.len() == items@.len(),
        forall|k: int| 0 <= k < items@.len() ==> is_public_copy(items@[k], #[trigger] public@[k]),
{
    let mut public: Vec<Connection> = Vec::new();
    let mut i: usize = 0;
    while i < items.len()
        invariant
            i <= items@.len(),
            public@.len() == i,
            forall|k: int| 0 <= k < i ==> is_public_copy(items@[k], #[trigger] public@[k]),
        decreases items@.len() - i,
    {
        public.push(public_connection(items[i].duplicate()));
        i = i + 1;
    }
    public
}

/// A listed or stored connection never holds an API key.
pub proof fn lemma_public_connections_hold_no_key(items: Seq<Connection>, public: Seq<Connection>)
    requires
        public.len() == items.len(),
        forall|k: int| 0 <= k < items.len() ==> is_public_copy(items[k], #[trigger] public[k]),
    ensures
        forall|k: int| 0 <= k < public.len() ==> (#[trigger] public[k]).api_key@.len() == 0,
{
    assert forall|k: int| 0 <= k < public.len() implies (#[trigger] public[k]).api_key@.len() == 0 by {
        assert(is_public_copy(items[k], public[k]));
    }
}

/// Puts the key read from the credential store into the connection: the key,
/// or the empty key when none was read, and whether it is non-empty.
pub fn apply_stored_key(connection: &mut Connection, stored: Option<String>)
    ensures
        final(connection).api_key@ == (match stored {
            Some(k) => k@,
            None => Seq::<char>::empty(),
        }),
        final(connection).has_api_key == (final(connection).api_key@.len() > 0),
        final(connection).id == old(connection).id,
        final(connection).name == old(connection).name,
        final(connection).kind == old(connection).kind,
        final(connection).base_url == old(connection).base_url,
        final(connection).default_model == old(connection).default_model,
        final(connection).enabled == old(connection).enabled,
        final(connection).input_cost_per_million_bits == old(connection).input_cost_per_million_bits,
        final(connection).output_cost_per_million_bits == old(connection).output_cost_per_million_bits,
{
    let key = match stored {
        Some(k) => k,
        None => String::new(),
    };
    let present = !key.as_str().is_empty();
    connection.api_key = key;
    connection.has_api_key = present;
}

/// The API key that an earlier version stored in the connections file for
/// `id`: that of the first stored connection with this id, or the empty key.
pub fn stored_key_in_file(items: &Vec<Connection>, id: &String) -> (key: String)
    ensures
        key@ == (match crate::records::first_with_id(items@, id@) {
            Some(p) => items@[p].api_key@,
            None => Seq::<char>::empty(),
        }),
{
    match crate::records::position_of_id(items, id) {
        Some(p) => items[p].api_key.clone(),
        None => String::new(),
    }
}

/// The key to write to the credential store when a connection is saved.
#[derive(Debug)]
pub struct KeyWrite {
    pub key: String,
    /// The key comes from the connections file, not from the user.
    pub migration: bool,
}

/// Which key a save writes to the credential store: the key the user entered,
/// or else the key still held in the connections file, or none.
pub fn key_to_store(connection: &Connection, stored_in_file: &String) -> (write: Option<KeyWrite>)
    ensures
        match write {
            Some(w) => if connection.api_key@.len() > 0 {
                w.key@ == connection.api_key@ && !w.migration
            } else {
                stored_in_file@.len() > 0 && w.key@ == stored_in_file@ && w.migration
            },
            None => connection.api_key@.len() == 0 && stored_in_file@.len() == 0,
        },
{
    if !connection.api_key.as_str().is_empty() {
        Some(KeyWrite { key: connection.api_key.clone(), migration: false })
    } else if !stored_in_file.as_str().is_empty() {
        Some(KeyWrite { key: stored_in_file.clone(), migration: true })
    } else {
        None
    }
}

/// The message for a credential store that cannot be opened.
pub fn credential_unavailable(detail: &str) -> (message: String)
    ensures
        message@ == "Credential storage unavailable: "@ + detail@,
{
    concat("Credential storage unavailable: ", detail)
}

/// The message for a key that could not be written to the credential store.
pub fn key_write_failed(migration: bool, detail: &str) -> (message: String)
    ensures
        message@ == (if migration {
            "Could not migrate API key securely: "@
        } else {
            "Could not save API key securely: "@
        }) + detail@,
{
    if migration {
        concat("Could not migrate API key securely: ", detail)
    } else {
        concat("Could not save API key securely: ", detail)
    }
}

/// A price is accepted when, as a binary64 value, it is finite and not below
/// zero (negative zero is accepted; NaN and infinities are not).
pub open spec fn is_valid_price(bits: u64) -> bool {
    &&& (bits >> 52u64) & 0x7ffu64 != 0x7ffu64
    &&& (bits >> 63u64 == 0u64 || bits & 0x7fff_ffff_ffff_ffffu64 == 0u64)
}

/// Whether the price is finite and not below zero.
pub fn valid_price(bits: u64) -> (valid: bool)
    ensures
        valid == is_valid_price(bits),
{
    (bits >> 52u64) & 0x7ffu64 != 0x7ffu64 && (bits >> 63u64 == 0u64 || bits & 0x7fff_ffff_ffff_ffffu64 == 0u64)
}

/// What a connection is saved with: trimmed name, trimmed base URL and
/// trimmed default model.
#[derive(Debug)]
pub struct ConnectionFields {
    pub name: String,
    pub base_url: String,
    pub default_model: String,
}

/// The outcome of checking a connection before it is saved: its trimmed
/// name, base URL and model, or the message that rejects it. `scheme` is the
/// scheme of the trimmed base URL parsed as a URL, if it parses.
pub open spec fn connection_check(c: Connection, scheme: Option<Seq<char>>) -> Result<
    (Seq<char>, Seq<char>, Seq<char>),
    Seq<char>,
> {
    let name = trim(c.name@);
    let base = trim(c.base_url@);
    let model = trim(c.default_model@);
    if name.len() == 0 {
        Err("Connection name is required"@)
    } else if scheme is None {
        Err("Enter a valid http:// or https:// base URL"@)
    } else if scheme != Some("http"@) && scheme != Some("https"@) {
        Err("Base URL must use http:// or https://"@)
    } else if model.len() == 0 {
        Err("A default model is required"@)
    } else if !is_valid_price(c.input_cost_per_million_bits) || !is_valid_price(
        c.output_cost_per_million_bits,
    ) {
        Err("Token pricing must be zero or a positive number"@)
    } else {
        Ok((name, base, model))
    }
}

/// The name for what `reqwest::Url::parse` followed by `Url::scheme` gives
/// for a string: the scheme when the string parses as an absolute URL.
pub uninterp spec fn parsed_url_scheme(input: Seq<char>) -> Option<Seq<char>>;

/// Parses `input` with `reqwest::Url::parse` (the `url` crate's parser) and
/// returns the parsed URL's scheme, or `None` when parsing fails. Claimed: the
/// result is a function of the input's characters alone, named
/// `parsed_url_scheme`; nothing more is claimed of it.
#[verifier::external_body]
fn url_scheme(input: &str) -> (scheme: Option<String>)
    ensures
        match scheme {
            Some(s) => parsed_url_scheme(input@) == Some(s@),
            None => parsed_url_scheme(input@) is None,
        },
{
    reqwest::Url::parse(input).ok().map(|url| url.scheme().to_string())
}

/// Checks a connection before it is saved, given the scheme of its trimmed
/// base URL (if that parses as a URL).
pub fn check_connection_with_scheme(connection: &Connection, scheme: Option<String>) -> (checked: Result<
    ConnectionFields,
    String,
>)
    ensures
        match checked {
            Ok(f) => connection_check(*connection, opt_text(scheme)) == Ok::<
                (Seq<char>, Seq<char>, Seq<char>),
                Seq<char>,
            >((f.name@, f.base_url@, f.default_model@)),
            Err(m) => connection_check(*connection, opt_text(scheme)) == Err::<
                (Seq<char>, Seq<char>, Seq<char>),
                Seq<char>,
            >(m@),
        },
{
    let name = trimmed(connection.name.as_str());
    let base = trimmed(connection.base_url.as_str());
    let model = trimmed(connection.default_model.as_str());
    if name.as_str().is_empty() {
        return Err(String::from_str("Connection name is required"));
    }
    match &scheme {
        None => {
            return Err(String::from_str("Enter a valid http:// or https:// base URL"));
        },
        Some(s) => {
            if !same_text(s.as_str(), "http") && !same_text(s.as_str(), "https") {
                return Err(String::from_str("Base URL must use http:// or https://"));
            }
        },
    }
    if model.as_str().is_empty() {
        return Err(String::from_str("A default model is required"));
    }
    if !valid_price(connection.input_cost_per_million_bits) || !valid_price(
        connection.output_cost_per_million_bits,
    ) {
        return Err(String::from_str("Token pricing must be zero or a positive number"));
    }
    Ok(ConnectionFields { name, base_url: base, default_model: model })
}

/// Checks a connection before it is saved: a name, an http or https base URL,
/// a default model and prices that are finite and not negative.
pub fn check_connection(connection: &Connection) -> (checked: Result<ConnectionFields, String>)
    ensures
        match checked {
            Ok(f) => connection_check(*connection, parsed_url_scheme(trim(connection.base_url@))) == Ok::<
                (Seq<char>, Seq<char>, Seq<char>),
                Seq<char>,
            >((f.name@, f.base_url@, f.default_model@)),
            Err(m) => connection_check(*connection, parsed_url_scheme(trim(connection.base_url@))) == Err::<
                (Seq<char>, Seq<char>, Seq<char>),
                Seq<char>,
            >(m@),
        },
{
    let base = trimmed(connection.base_url.as_str());
    let scheme = url_scheme(base.as_str());
    check_connection_with_scheme(connection, scheme)
}

/// The connection as it is stored after a save: the checked name, the
/// normalized base URL, the checked model and no API key; it is marked as
/// having a key when one was just written to the credential store.
pub fn saved_connection(connection: Connection, fields: ConnectionFields, key_written: bool) -> (saved: Connection)
    ensures
        saved.id == connection.id,
        saved.name == fields.name,
        saved.kind == connection.kind,
        saved.base_url@ == normalized_url(fields.base_url@),
        saved.api_key@ == Seq::<char>::empty(),
        saved.has_api_key == (key_written || connection.has_api_key),
        saved.default_model == fields.default_model,
        saved.enabled == connection.enabled,
        saved.input_cost_per_million_bits == connection.input_cost_per_million_bits,
        saved.output_cost_per_million_bits == connection.output_cost_per_million_bits,
{
    let mut saved = connection;
    if key_written {
        saved.has_api_key = true;
    }
    saved.base_url = normalized(fields.base_url.as_str());
    saved.name = fields.name;
    saved.default_model = fields.default_model;
    saved.api_key = String::new();
    saved
}

} // verus!

verus! {

/// A stored connection still holds an API key in the connections file.
pub open spec fn holds_key(c: Connection) -> bool {
    c.api_key@.len() > 0
}

/// The positions of the stored connections that still hold a key, in
/// increasing order.
pub fn legacy_key_positions(items: &Vec<Connection>) -> (positions: Vec<usize>)
    ensures
        forall|j: int| 0 <= j < positions@.len() ==> #[trigger] positions@[j] < items@.len() && holds_key(items@[positions@[j] as int]),
        forall|i: int, j: int| 0 <= i < j < positions@.len() ==> #[trigger] positions@[i] < #[trigger] positions@[j],
        forall|k: int| 0 <= k < items@.len() && holds_key(#[trigger] items@[k]) ==> positions@.contains(k as usize),
{
    let mut positions: Vec<usize> = Vec::new();
    let mut k: usize = 0;
    while k < items.len()
        invariant
            k <= items@.len(),
            forall|j: int| 0 <= j < positions@.len() ==> #[trigger] positions@[j] < k && holds_key(items@[positions@[j] as int]),
            forall|i: int, j: int| 0 <= i < j < positions@.len() ==> #[trigger] positions@[i] < #[trigger] positions@[j],
            forall|m: int| 0 <= m < k && holds_key(#[trigger] items@[m]) ==> positions@.contains(m as usize),
        decreases items@.len() - k,
    {
        if !items[k].api_key.as_str().is_empty() {
            let ghost before = positions@;
            positions.push(k);
            assert forall|m: int| 0 <= m < k + 1 && holds_key(#[trigger] items@[m]) implies positions@.contains(m as usize) by {
                if m < k {
                    let j = choose|j: int| 0 <= j < before.len() && before[j] == m as usize;
                    assert(positions@[j] == m as usize);
                } else {
                    assert(positions@[before.len() as int] == k);
                }
            }
        }
        k = k + 1;
    }
    positions
}

/// Every key still held in the file was moved to the credential store.
pub open spec fn all_keys_moved(items: Seq<Connection>, migrated: Seq<bool>) -> bool {
    forall|k: int| 0 <= k < items.len() && holds_key(#[trigger] items[k]) ==> migrated[k]
}

/// The connections to write back to the file after the keys they still held
/// were moved to the credential store. When every move succeeded, all of them
/// come back without a key; when a move failed, `None`: nothing may be
/// written, so no key is lost and none is left in the file.
pub fn stored_after_moves(items: &Vec<Connection>, migrated: &Vec<bool>) -> (stored: Option<Vec<Connection>>)
    requires
        migrated@.len() == items@.len(),
    ensures
        stored is Some <==> all_keys_moved(items@, migrated@),
        match stored {
            Some(s) => {
                &&& s@.len() == items@.len()
                &&& forall|k: int| 0 <= k < items@.len() ==> is_public_copy(items@[k], #[trigger] s@[k])
                &&& forall|k: int| 0 <= k < s@.len() ==> !holds_key(#[trigger] s@[k])
            },
            None => exists|k: int| 0 <= k < items@.len() && holds_key(#[trigger] items@[k]) && !migrated@[k],
        },
{
    let mut k: usize = 0;
    while k < items.len()
        invariant
            k <= items@.len(),
            migrated@.len() == items@.len(),
            forall|m: int| 0 <= m < k && holds_key(#[trigger] items@[m]) ==> migrated@[m],
        decreases items@.len() - k,
    {
        if !items[k].api_key.as_str().is_empty() && !migrated[k] {
            assert(holds_key(items@[k as int]));
            return None;
        }
        k = k + 1;
    }
    let s = public_connections(items);
    assert forall|k: int| 0 <= k < s@.len() implies !holds_key(#[trigger] s@[k]) by {
        assert(is_public_copy(items@[k], s@[k]));
    }
    Some(s)
}

} // verus!

verus! {

/// A saved connection is listed afterwards: after it replaces or joins the
/// stored connections and the file is written back, listing shows it, as the first connection with
/// its id, with every field it was saved with and without a key.
pub proof fn lemma_saved_connection_listed(
    items: Seq<Connection>,
    saved: Connection,
    stored: Seq<Connection>,
    listed: Seq<Connection>,
)
    requires
        saved.api_key@.len() == 0,
        stored.len() == crate::records::upserted(items, saved).len(),
        forall|k: int|
            0 <= k < stored.len() ==> is_public_copy(crate::records::upserted(items, saved)[k], #[trigger] stored[k]),
        listed.len() == stored.len(),
        forall|k: int| 0 <= k < stored.len() ==> is_public_copy(stored[k], #[trigger] listed[k]),
    ensures
        exists|p: int|
            crate::records::is_first_with_id(listed, saved.id@, p) && #[trigger] is_public_copy(saved, listed[p]),
{
    let u = crate::records::upserted(items, saved);
    crate::records::lemma_saved_record_found(items, saved);
    let p = choose|p: int| crate::records::is_first_with_id(u, saved.id@, p) && u[p] == saved;
    assert(is_public_copy(u[p], stored[p]));
    assert(is_public_copy(stored[p], listed[p]));
    assert forall|k: int| 0 <= k < p implies (#[trigger] listed[k]).id@ != saved.id@ by {
        assert(u[k].id@ != saved.id@);
        assert(is_public_copy(stored[k], listed[k]));
        assert(is_public_copy(u[k], stored[k]));
    }
    assert(crate::records::is_first_with_id(listed, saved.id@, p));
    assert(is_public_copy(saved, listed[p]));
}

} // verus!
