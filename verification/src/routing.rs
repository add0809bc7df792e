//! The order in which enabled connections are tried for a chat request.

use vstd::prelude::*;
use vstd::string::*;

use crate::model::{Connection, Settings};

verus! {

/// A connection is a candidate for `id`: it has that id, it is enabled, and
/// its id is not the excluded one.
pub open spec fn matches_id(c: Connection, id: Seq<char>, excluded: Option<Seq<char>>) -> bool {
    &&& c.id@ == id
    &&& c.enabled
    &&& match excluded {
        Some(x) => c.id@ != x,
        None => true,
    }
}

/// The first connection that is a candidate for `id`.
pub open spec fn first_match(cs: Seq<Connection>, id: Seq<char>, excluded: Option<Seq<char>>) -> Option<Connection>
    decreases cs.len(),
{
    if cs.len() == 0 {
        None
    } else if matches_id(cs[0], id, excluded) {
        Some(cs[0])
    } else {
        first_match(cs.drop_first(), id, excluded)
    }
}

/// For each configured fallback id in turn, its first enabled connection,
/// unless that is the requested connection itself.
pub open spec fn fallback_picks(cs: Seq<Connection>, ids: Seq<Seq<char>>, requested: Seq<char>) -> Seq<Connection>
    decreases ids.len(),
{
    if ids.len() == 0 {
        Seq::empty()
    } else {
        let earlier = fallback_picks(cs, ids.drop_last(), requested);
        match first_match(cs, ids.last(), Some(requested)) {
            Some(c) => earlier.push(c),
            None => earlier,
        }
    }
}

/// Some connection in `acc` has the id `id`.
pub open spec fn lists_id(acc: Seq<Connection>, id: Seq<char>) -> bool {
    exists|k: int| 0 <= k < acc.len() && acc[k].id@ == id
}

/// `acc` followed by every enabled connection of `cs`, in order, whose id is
/// not listed yet.
pub open spec fn append_unlisted(acc: Seq<Connection>, cs: Seq<Connection>) -> Seq<Connection>
    decreases cs.len(),
{
    if cs.len() == 0 {
        acc
    } else {
        let c = cs[0];
        let next = if c.enabled && !lists_id(acc, c.id@) {
            acc.push(c)
        } else {
            acc
        };
        append_unlisted(next, cs.drop_first())
    }
}

/// The ids of the configured fallback connections.
pub open spec fn fallback_ids(settings: Settings) -> Seq<Seq<char>> {
    settings.fallback_connection_ids@.map_values(|s: String| s@)
}

/// The order in which connections are tried: the requested connection, the
/// configured fallbacks, then every other enabled connection; only the first
/// of them when automatic fallback is off.
pub open spec fn candidate_order(cs: Seq<Connection>, requested: Seq<char>, settings: Settings) -> Seq<Connection> {
    let primary = match first_match(cs, requested, None) {
        Some(c) => seq![c],
        None => Seq::empty(),
    };
    let planned = append_unlisted(primary + fallback_picks(cs, fallback_ids(settings), requested), cs);
    if settings.automatic_fallback || planned.len() <= 1 {
        planned
    } else {
        planned.take(1)
    }
}

proof fn lemma_first_match_found(cs: Seq<Connection>, id: Seq<char>, excluded: Option<Seq<char>>)
    ensures
        first_match(cs, id, excluded) matches Some(c) ==> matches_id(c, id, excluded) && cs.contains(c),
    decreases cs.len(),
{
    if cs.len() > 0 && !matches_id(cs[0], id, excluded) {
        lemma_first_match_found(cs.drop_first(), id, excluded);
        match first_match(cs, id, excluded) {
            Some(c) => {
                let k = choose|k: int| 0 <= k < cs.drop_first().len() && cs.drop_first()[k] == c;
                assert(cs[k + 1] == c);
            },
            None => {},
        }
    }
}

proof fn lemma_first_match_listed(cs: Seq<Connection>, id: Seq<char>, excluded: Option<Seq<char>>, i: int)
    requires
        0 <= i < cs.len(),
        matches_id(cs[i], id, excluded),
    ensures
        first_match(cs, id, excluded) is Some,
    decreases cs.len(),
{
    if i > 0 && !matches_id(cs[0], id, excluded) {
        lemma_first_match_listed(cs.drop_first(), id, excluded, i - 1);
    }
}

proof fn lemma_fallback_picks_enabled(cs: Seq<Connection>, ids: Seq<Seq<char>>, requested: Seq<char>)
    ensures
        forall|k: int|
            0 <= k < fallback_picks(cs, ids, requested).len() ==> (#[trigger] fallback_picks(
                cs,
                ids,
                requested,
            )[k]).enabled && cs.contains(fallback_picks(cs, ids, requested)[k]),
    decreases ids.len(),
{
    if ids.len() > 0 {
        lemma_fallback_picks_enabled(cs, ids.drop_last(), requested);
        lemma_first_match_found(cs, ids.last(), Some(requested));
        let earlier = fallback_picks(cs, ids.drop_last(), requested);
        let all = fallback_picks(cs, ids, requested);
        assert forall|k: int| 0 <= k < all.len() implies (#[trigger] all[k]).enabled && cs.contains(all[k]) by {
            if k < earlier.len() {
                assert(all[k] == earlier[k]);
            }
        }
    }
}

proof fn lemma_append_unlisted(acc: Seq<Connection>, cs: Seq<Connection>)
    ensures
        acc.is_prefix_of(append_unlisted(acc, cs)),
        forall|k: int|
            acc.len() <= k < append_unlisted(acc, cs).len() ==> (#[trigger] append_unlisted(acc, cs)[k]).enabled
                && cs.contains(append_unlisted(acc, cs)[k]),
        forall|k: int| 0 <= k < cs.len() && (#[trigger] cs[k]).enabled ==> lists_id(append_unlisted(acc, cs), cs[k].id@),
    decreases cs.len(),
{
    if cs.len() > 0 {
        let c = cs[0];
        let next = if c.enabled && !lists_id(acc, c.id@) {
            acc.push(c)
        } else {
            acc
        };
        let rest = cs.drop_first();
        lemma_append_unlisted(next, rest);
        let result = append_unlisted(acc, cs);
        assert(result == append_unlisted(next, rest));
        assert forall|k: int| acc.len() <= k < result.len() implies (#[trigger] result[k]).enabled && cs.contains(result[k]) by {
            if k < next.len() {
                assert(next[k] == c);
                assert(cs[0] == c);
            } else {
                let j = choose|j: int| 0 <= j < rest.len() && rest[j] == result[k];
                assert(cs[j + 1] == result[k]);
            }
        }
        assert forall|k: int| 0 <= k < cs.len() && (#[trigger] cs[k]).enabled implies lists_id(result, cs[k].id@) by {
            if k == 0 {
                if lists_id(acc, c.id@) {
                    let j = choose|j: int| 0 <= j < acc.len() && acc[j].id@ == c.id@;
                    assert(result[j] == acc[j]);
                } else {
                    assert(result[acc.len() as int] == next[acc.len() as int]);
                }
            } else {
                assert(rest[k - 1] == cs[k]);
            }
        }
    }
}

/// Only enabled connections are tried, and each of them is one of the
/// stored connections.
pub proof fn lemma_candidates_enabled(cs: Seq<Connection>, requested: Seq<char>, settings: Settings)
    ensures
        forall|k: int|
            0 <= k < candidate_order(cs, requested, settings).len() ==> (#[trigger] candidate_order(
                cs,
                requested,
                settings,
            )[k]).enabled && cs.contains(candidate_order(cs, requested, settings)[k]),
{
    let primary = match first_match(cs, requested, None) {
        Some(c) => seq![c],
        None => Seq::empty(),
    };
    let picks = fallback_picks(cs, fallback_ids(settings), requested);
    let planned = append_unlisted(primary + picks, cs);
    lemma_first_match_found(cs, requested, None);
    lemma_fallback_picks_enabled(cs, fallback_ids(settings), requested);
    lemma_append_unlisted(primary + picks, cs);
    assert forall|k: int| 0 <= k < planned.len() implies (#[trigger] planned[k]).enabled && cs.contains(planned[k]) by {
        if k < primary.len() {
            assert(planned[k] == (primary + picks)[k]);
        } else if k < primary.len() + picks.len() {
            assert(planned[k] == (primary + picks)[k]);
            assert(planned[k] == picks[k - primary.len()]);
        }
    }
}

/// With automatic fallback off, at most one connection is tried.
pub proof fn lemma_no_fallback_single_candidate(cs: Seq<Connection>, requested: Seq<char>, settings: Settings)
    requires
        !settings.automatic_fallback,
    ensures
        candidate_order(cs, requested, settings).len() <= 1,
{
}

/// The requested connection, when it exists and is enabled, is tried first.
pub proof fn lemma_requested_first(cs: Seq<Connection>, requested: Seq<char>, settings: Settings, i: int)
    requires
        0 <= i < cs.len(),
        cs[i].id@ == requested,
        cs[i].enabled,
    ensures
        candidate_order(cs, requested, settings).len() >= 1,
        candidate_order(cs, requested, settings)[0].id@ == requested,
{
    lemma_first_match_listed(cs, requested, None, i);
    lemma_first_match_found(cs, requested, None);
    let primary = match first_match(cs, requested, None) {
        Some(c) => seq![c],
        None => Seq::empty(),
    };
    let picks = fallback_picks(cs, fallback_ids(settings), requested);
    lemma_append_unlisted(primary + picks, cs);
    let planned = append_unlisted(primary + picks, cs);
    assert(planned[0] == (primary + picks)[0]);
}

/// With automatic fallback on, every enabled connection is tried: some
/// candidate carries its id.
pub proof fn lemma_every_enabled_connection_tried(cs: Seq<Connection>, requested: Seq<char>, settings: Settings, i: int)
    requires
        settings.automatic_fallback,
        0 <= i < cs.len(),
        cs[i].enabled,
    ensures
        lists_id(candidate_order(cs, requested, settings), cs[i].id@),
{
    let primary = match first_match(cs, requested, None) {
        Some(c) => seq![c],
        None => Seq::empty(),
    };
    let picks = fallback_picks(cs, fallback_ids(settings), requested);
    lemma_append_unlisted(primary + picks, cs);
}

/// With automatic fallback on, the requested connection and then the
/// configured fallbacks, in their configured order, come before all others.
pub proof fn lemma_fallbacks_in_configured_order(cs: Seq<Connection>, requested: Seq<char>, settings: Settings)
    requires
        settings.automatic_fallback,
    ensures
        ({
            let primary = match first_match(cs, requested, None) {
                Some(c) => seq![c],
                None => Seq::<Connection>::empty(),
            };
            (primary + fallback_picks(cs, fallback_ids(settings), requested)).is_prefix_of(
                candidate_order(cs, requested, settings),
            )
        }),
{
    let primary = match first_match(cs, requested, None) {
        Some(c) => seq![c],
        None => Seq::empty(),
    };
    lemma_append_unlisted(primary + fallback_picks(cs, fallback_ids(settings), requested), cs);
}

proof fn lemma_fallback_picks_prefix(cs: Seq<Connection>, ids: Seq<Seq<char>>, requested: Seq<char>, m: int)
    requires
        0 <= m <= ids.len(),
    ensures
        fallback_picks(cs, ids.take(m), requested).is_prefix_of(fallback_picks(cs, ids, requested)),
    decreases ids.len(),
{
    if m < ids.len() {
        assert(ids.drop_last().take(m) =~= ids.take(m));
        lemma_fallback_picks_prefix(cs, ids.drop_last(), requested, m);
    } else {
        assert(ids.take(m) =~= ids);
    }
}

proof fn lemma_fallback_pick_step(cs: Seq<Connection>, ids: Seq<Seq<char>>, requested: Seq<char>, k: int, c: Connection)
    requires
        0 <= k < ids.len(),
        first_match(cs, ids[k], Some(requested)) == Some(c),
    ensures
        fallback_picks(cs, ids.take(k + 1), requested) == fallback_picks(cs, ids.take(k), requested).push(c),
{
    assert(ids.take(k + 1).drop_last() =~= ids.take(k));
    assert(ids.take(k + 1).last() == ids[k]);
}

/// With automatic fallback on, configured fallbacks are tried in their
/// configured order: when the fallback ids at positions `i < j` both name an
/// enabled connection other than the requested one, a candidate with the
/// first id is tried before a candidate with the second.
pub proof fn lemma_fallbacks_tried_in_configured_order(
    cs: Seq<Connection>,
    requested: Seq<char>,
    settings: Settings,
    i: int,
    j: int,
    a: int,
    b: int,
)
    requires
        settings.automatic_fallback,
        0 <= i < j < settings.fallback_connection_ids@.len(),
        0 <= a < cs.len(),
        cs[a].id@ == settings.fallback_connection_ids@[i]@,
        cs[a].enabled,
        cs[a].id@ != requested,
        0 <= b < cs.len(),
        cs[b].id@ == settings.fallback_connection_ids@[j]@,
        cs[b].enabled,
        cs[b].id@ != requested,
    ensures
        exists|p: int, q: int|
            0 <= p < q < candidate_order(cs, requested, settings).len()
                && (#[trigger] candidate_order(cs, requested, settings)[p]).id@
                == settings.fallback_connection_ids@[i]@
                && (#[trigger] candidate_order(cs, requested, settings)[q]).id@
                == settings.fallback_connection_ids@[j]@,
{
    let ids = fallback_ids(settings);
    let order = candidate_order(cs, requested, settings);
    assert(ids[i] == settings.fallback_connection_ids@[i]@);
    assert(ids[j] == settings.fallback_connection_ids@[j]@);
    lemma_first_match_listed(cs, ids[i], Some(requested), a);
    lemma_first_match_found(cs, ids[i], Some(requested));
    lemma_first_match_listed(cs, ids[j], Some(requested), b);
    lemma_first_match_found(cs, ids[j], Some(requested));
    let ci = first_match(cs, ids[i], Some(requested))->0;
    let cj = first_match(cs, ids[j], Some(requested))->0;
    lemma_fallback_pick_step(cs, ids, requested, i, ci);
    lemma_fallback_pick_step(cs, ids, requested, j, cj);
    let upto_i = fallback_picks(cs, ids.take(i), requested);
    let upto_j = fallback_picks(cs, ids.take(j), requested);
    let picks = fallback_picks(cs, ids, requested);
    assert(ids.take(j).take(i + 1) =~= ids.take(i + 1));
    lemma_fallback_picks_prefix(cs, ids.take(j), requested, i + 1);
    lemma_fallback_picks_prefix(cs, ids, requested, j + 1);
    assert(upto_i.push(ci)[upto_i.len() as int] == ci);
    assert(upto_j[upto_i.len() as int] == ci);
    assert(upto_j.push(cj)[upto_j.len() as int] == cj);
    assert(upto_i.len() < upto_j.len());
    assert(upto_j.push(cj)[upto_i.len() as int] == ci);
    assert(picks[upto_i.len() as int] == ci);
    assert(picks[upto_j.len() as int] == cj);
    let primary = match first_match(cs, requested, None) {
        Some(c) => seq![c],
        None => Seq::<Connection>::empty(),
    };
    lemma_fallbacks_in_configured_order(cs, requested, settings);
    let p: int = (primary.len() + upto_i.len()) as int;
    let q: int = (primary.len() + upto_j.len()) as int;
    assert((primary + picks)[p] == ci);
    assert((primary + picks)[q] == cj);
    assert(order[p] == ci);
    assert(order[q] == cj);
}

spec fn view_of_excluded(excluded: Option<&String>) -> Option<Seq<char>> {
    match excluded {
        Some(x) => Some(x@),
        None => None,
    }
}

fn find_candidate(cs: &Vec<Connection>, id: &String, excluded: Option<&String>) -> (found: Option<usize>)
    ensures
        match found {
            Some(i) => i < cs@.len() && first_match(cs@, id@, view_of_excluded(excluded)) == Some(cs@[i as int]),
            None => first_match(cs@, id@, view_of_excluded(excluded)) is None,
        },
{
    let ghost ex = view_of_excluded(excluded);
    let mut i: usize = 0;
    assert(cs@.skip(0) =~= cs@);
    while i < cs.len()
        invariant
            i <= cs@.len(),
            ex == view_of_excluded(excluded),
            first_match(cs@, id@, ex) == first_match(cs@.skip(i as int), id@, ex),
        decreases cs@.len() - i,
    {
        let c = &cs[i];
        assert(cs@.skip(i as int).drop_first() =~= cs@.skip(i + 1));
        let not_excluded = match excluded {
            Some(x) => !(c.id == *x),
            None => true,
        };
        if c.id == *id && c.enabled && not_excluded {
            return Some(i);
        }
        i = i + 1;
    }
    None
}

fn has_id(acc: &Vec<Connection>, id: &String) -> (listed: bool)
    ensures
        listed == lists_id(acc@, id@),
{
    let mut k: usize = 0;
    while k < acc.len()
        invariant
            k <= acc@.len(),
            forall|j: int| 0 <= j < k ==> acc@[j].id@ != id@,
        decreases acc@.len() - k,
    {
        if acc[k].id == *id {
            return true;
        }
        k = k + 1;
    }
    false
}

/// The connections to try for a chat request on `connection_id`, in order.
pub fn order_candidates(connections: &Vec<Connection>, connection_id: &String, settings: &Settings) -> (ordered: Vec<Connection>)
    ensures
        ordered@ == candidate_order(connections@, connection_id@, *settings),
{
    let ghost cs = connections@;
    let mut ordered: Vec<Connection> = Vec::new();
    match find_candidate(connections, connection_id, None) {
        Some(i) => ordered.push(connections[i].duplicate()),
        None => {},
    }
    let ghost primary = ordered@;
    let ids = &settings.fallback_connection_ids;
    let ghost all_ids = fallback_ids(*settings);
    let mut j: usize = 0;
    while j < ids.len()
        invariant
            j <= ids@.len(),
            cs == connections@,
            all_ids == fallback_ids(*settings),
            ids == &settings.fallback_connection_ids,
            ordered@ == primary + fallback_picks(cs, all_ids.take(j as int), connection_id@),
        decreases ids@.len() - j,
    {
        assert(all_ids.take(j + 1).drop_last() =~= all_ids.take(j as int));
        assert(all_ids.take(j + 1).last() == ids@[j as int]@);
        match find_candidate(connections, &ids[j], Some(connection_id)) {
            Some(i) => ordered.push(connections[i].duplicate()),
            None => {},
        }
        j = j + 1;
    }
    assert(all_ids.take(ids@.len() as int) =~= all_ids);
    let ghost planned = append_unlisted(ordered@, cs);
    let mut i: usize = 0;
    assert(cs.skip(0) =~= cs);
    while i < connections.len()
        invariant
            i <= cs.len(),
            cs == connections@,
            planned == append_unlisted(ordered@, cs.skip(i as int)),
        decreases cs.len() - i,
    {
        assert(cs.skip(i as int).drop_first() =~= cs.skip(i + 1));
        let c = &connections[i];
        if c.enabled && !has_id(&ordered, &c.id) {
            ordered.push(c.duplicate());
        }
        i = i + 1;
    }
    assert(cs.skip(cs.len() as int) =~= Seq::<Connection>::empty());
    if !settings.automatic_fallback {
        ordered.truncate(1);
    }
    assert(ordered@ =~= candidate_order(connections@, connection_id@, *settings));
    ordered
}

} // verus!

verus! {

/// The model requested from a candidate: the chosen model for the requested
/// connection when it is not blank, otherwise the candidate's default model.
pub open spec fn model_for(candidate: Connection, requested: Seq<char>, model: Seq<char>) -> Seq<char> {
    if candidate.id@ == requested && crate::text::trim(model).len() > 0 {
        model
    } else {
        candidate.default_model@
    }
}

/// The model to request from a candidate connection.
pub fn request_model(candidate: &Connection, requested: &String, model: &String) -> (m: String)
    ensures
        m@ == model_for(*candidate, requested@, model@),
{
    if candidate.id == *requested && !crate::text::trimmed(model.as_str()).as_str().is_empty() {
        model.clone()
    } else {
        candidate.default_model.clone()
    }
}

/// The note kept of a provider that failed: its name and the error.
pub open spec fn failure_note_for(name: Seq<char>, error: Seq<char>) -> Seq<char> {
    name + ": "@ + error
}

/// The message when every candidate failed: the notes of all failures.
pub open spec fn all_failed_message_for(notes: Seq<Seq<char>>) -> Seq<char> {
    "All available providers failed: "@ + crate::text::joined(notes, " | "@)
}

/// Where a chat request stands: how many candidates have been tried, and the
/// note of each that failed.
#[derive(Debug)]
pub struct FallbackState {
    pub tried: usize,
    pub failures: Vec<String>,
}

/// What to do next: send the request to a candidate with a model, or give up
/// with a message.
#[derive(Debug)]
pub enum ChatStep {
    Send { candidate: usize, model: String },
    GiveUp { message: String },
}

/// A chat request before any candidate is tried.
pub fn fallback_start() -> (state: FallbackState)
    ensures
        state.tried == 0,
        state.failures@.len() == 0,
{
    FallbackState { tried: 0, failures: Vec::new() }
}

/// The next step of a chat request: the next untried candidate with the
/// model to request, or, when every candidate failed, the message listing
/// their failures.
pub fn next_step(state: &FallbackState, candidates: &Vec<Connection>, requested: &String, model: &String) -> (step: ChatStep)
    ensures
        match step {
            ChatStep::Send { candidate, model: m } => state.tried < candidates@.len() && candidate == state.tried
                && m@ == model_for(candidates@[state.tried as int], requested@, model@),
            ChatStep::GiveUp { message } => state.tried >= candidates@.len() && message@
                == all_failed_message_for(crate::text::texts(state.failures@)),
        },
{
    if state.tried < candidates.len() {
        ChatStep::Send {
            candidate: state.tried,
            model: request_model(&candidates[state.tried], requested, model),
        }
    } else {
        let mut message = String::from_str("All available providers failed: ");
        message.append(crate::text::join(&state.failures, " | ").as_str());
        ChatStep::GiveUp { message }
    }
}

/// Records that the candidate just tried failed with `error`.
pub fn after_failure(state: &mut FallbackState, candidates: &Vec<Connection>, error: &str)
    requires
        old(state).tried < candidates@.len(),
    ensures
        final(state).tried == old(state).tried + 1,
        final(state).failures@.len() == old(state).failures@.len() + 1,
        crate::text::texts(final(state).failures@) == crate::text::texts(old(state).failures@).push(
            failure_note_for(candidates@[old(state).tried as int].name@, error@),
        ),
{
    let ghost before = state.failures@;
    let count = candidates.len();
    assert(state.tried < count);
    let name = candidates[state.tried].name.as_str();
    let mut note = crate::text::concat(name, ": ");
    note.append(error);
    state.failures.push(note);
    state.tried = state.tried + 1;
    assert(crate::text::texts(state.failures@) =~= crate::text::texts(before).push(
        failure_note_for(candidates@[state.tried - 1].name@, error@),
    ));
}

} // verus!
