//! Saved conversations, listed newest first.

use vstd::prelude::*;

use crate::model::Conversation;
use crate::records::{first_with_id, lemma_saved_record_found, upserted};

verus! {

/// The conversations updated at `t`.
pub open spec fn updated_at_is(t: u64) -> spec_fn(Conversation) -> bool {
    |c: Conversation| c.updated_at == t
}

/// Newest first: no conversation comes before one updated later.
pub open spec fn newest_first(s: Seq<Conversation>) -> bool {
    forall|i: int, j: int| 0 <= i < j < s.len() ==> (#[trigger] s[i]).updated_at >= (#[trigger] s[j]).updated_at
}

/// `sorted` lists the conversations of `items` newest first, and
/// conversations updated at the same time keep their order.
pub open spec fn stably_newest_first(items: Seq<Conversation>, sorted: Seq<Conversation>) -> bool {
    &&& newest_first(sorted)
    &&& forall|t: u64| #[trigger] sorted.filter(updated_at_is(t)) == items.filter(updated_at_is(t))
}

proof fn lemma_insert_filter(r: Seq<Conversation>, p: int, x: Conversation, t: u64)
    requires
        0 <= p <= r.len(),
        forall|k: int| p <= k < r.len() ==> (#[trigger] r[k]).updated_at < x.updated_at,
    ensures
        r.insert(p, x).filter(updated_at_is(t)) == if x.updated_at == t {
            r.filter(updated_at_is(t)).push(x)
        } else {
            r.filter(updated_at_is(t))
        },
{
    broadcast use Seq::filter_distributes_over_add, Seq::lemma_filter_push;

    let pred = updated_at_is(t);
    let a = r.take(p);
    let b = r.skip(p);
    assert(r =~= a + b);
    assert(r.insert(p, x) =~= a.push(x) + b);
    if x.updated_at == t {
        assert(b.all(|y: Conversation| !pred(y))) by {
            assert forall|k: int| 0 <= k < b.len() implies !pred(#[trigger] b[k]) by {
                assert(b[k] == r[p + k]);
            }
        }
        b.lemma_all_neg_filter_empty(pred);
        assert(b.filter(pred) =~= Seq::<Conversation>::empty());
        assert(a.filter(pred).push(x) + b.filter(pred) =~= (a.filter(pred) + b.filter(pred)).push(x));
    }
}

/// Conversations newest first; conversations updated at the same time keep
/// their stored order.
pub fn sort_newest_first(items: Vec<Conversation>) -> (sorted: Vec<Conversation>)
    ensures
        stably_newest_first(items@, sorted@),
        sorted@.len() == items@.len(),
{
    let ghost given = items@;
    let total = items.len();
    let mut rest = items;
    let mut sorted: Vec<Conversation> = Vec::new();
    let mut consumed: usize = 0;
    while rest.len() > 0
        invariant
            consumed + rest@.len() == given.len(),
            given.len() == total,
            rest@ == given.subrange(consumed as int, given.len() as int),
            newest_first(sorted@),
            sorted@.len() == consumed,
            forall|t: u64| #[trigger] sorted@.filter(updated_at_is(t)) == given.take(consumed as int).filter(
                updated_at_is(t),
            ),
        decreases rest@.len(),
    {
        let x = rest.remove(0);
        assert(x == given[consumed as int]);
        let mut p: usize = 0;
        while p < sorted.len()
            invariant_except_break
                true,
            invariant
                p <= sorted@.len(),
                forall|k: int| 0 <= k < p ==> (#[trigger] sorted@[k]).updated_at >= x.updated_at,
            ensures
                p <= sorted@.len(),
                forall|k: int| 0 <= k < p ==> (#[trigger] sorted@[k]).updated_at >= x.updated_at,
                p < sorted@.len() ==> sorted@[p as int].updated_at < x.updated_at,
            decreases sorted@.len() - p,
        {
            if sorted[p].updated_at < x.updated_at {
                break;
            }
            p = p + 1;
        }
        let ghost old_sorted = sorted@;
        proof {
            assert forall|k: int| p <= k < old_sorted.len() implies (#[trigger] old_sorted[k]).updated_at
                < x.updated_at by {
                if k > p {
                    assert(old_sorted[p as int].updated_at >= old_sorted[k].updated_at);
                }
            }
            old_sorted.insert_ensures(p as int, x);
        }
        sorted.insert(p, x);
        proof {
            assert forall|t: u64| #[trigger] sorted@.filter(updated_at_is(t)) == given.take(consumed + 1).filter(
                updated_at_is(t),
            ) by {
                lemma_insert_filter(old_sorted, p as int, x, t);
                assert(given.take(consumed + 1) =~= given.take(consumed as int).push(x));
                given.take(consumed as int).lemma_filter_push(x, updated_at_is(t));
            }
            assert forall|i: int, j: int| 0 <= i < j < sorted@.len() implies (#[trigger] sorted@[i]).updated_at
                >= (#[trigger] sorted@[j]).updated_at by {
                if j < p {
                    assert(sorted@[i] == old_sorted[i] && sorted@[j] == old_sorted[j]);
                } else if j == p {
                    assert(sorted@[i] == old_sorted[i]);
                } else if i > p {
                    assert(sorted@[i] == old_sorted[i - 1] && sorted@[j] == old_sorted[j - 1]);
                } else if i == p {
                    assert(sorted@[j] == old_sorted[j - 1]);
                } else {
                    assert(sorted@[i] == old_sorted[i] && sorted@[j] == old_sorted[j - 1]);
                }
            }
        }
        consumed = consumed + 1;
        assert(rest@ =~= given.subrange(consumed as int, given.len() as int));
    }
    assert(given.take(consumed as int) =~= given);
    sorted
}

} // verus!

verus! {

proof fn lemma_filter_first(s: Seq<Conversation>, t: u64)
    requires
        s.len() > 0,
    ensures
        s.filter(updated_at_is(t)) == (if s[0].updated_at == t {
            seq![s[0]]
        } else {
            Seq::<Conversation>::empty()
        }) + s.drop_first().filter(updated_at_is(t)),
{
    broadcast use Seq::lemma_filter_prepend;

    assert(s =~= seq![s[0]] + s.drop_first());
    s.drop_first().lemma_filter_prepend(s[0], updated_at_is(t));
}

proof fn lemma_has_key(s: Seq<Conversation>, i: int)
    requires
        0 <= i < s.len(),
    ensures
        s.filter(updated_at_is(s[i].updated_at)).len() > 0,
{
    broadcast use Seq::lemma_filter_contains;

    assert(s.filter(updated_at_is(s[i].updated_at)).contains(s[i]));
}

proof fn lemma_key_present(s: Seq<Conversation>, t: u64) -> (i: int)
    requires
        s.filter(updated_at_is(t)).len() > 0,
    ensures
        0 <= i < s.len(),
        s[i].updated_at == t,
    decreases s.len(),
{
    if s.len() == 0 {
        assert(s.filter(updated_at_is(t)) =~= Seq::<Conversation>::empty());
        0
    } else {
        lemma_filter_first(s, t);
        if s[0].updated_at == t {
            0
        } else {
            let j = lemma_key_present(s.drop_first(), t);
            j + 1
        }
    }
}

/// The listing order is determined: two lists that both hold the given
/// conversations newest first, with ties in stored order, are the same list.
pub proof fn lemma_newest_first_unique(items: Seq<Conversation>, a: Seq<Conversation>, b: Seq<Conversation>)
    requires
        stably_newest_first(items, a),
        stably_newest_first(items, b),
    ensures
        a == b,
{
    lemma_same_sorted(a, b);
}

proof fn lemma_same_sorted(a: Seq<Conversation>, b: Seq<Conversation>)
    requires
        newest_first(a),
        newest_first(b),
        forall|t: u64| #[trigger] a.filter(updated_at_is(t)) == b.filter(updated_at_is(t)),
    ensures
        a == b,
    decreases a.len(),
{
    if a.len() == 0 {
        if b.len() > 0 {
            lemma_has_key(b, 0);
            assert(a.filter(updated_at_is(b[0].updated_at)) =~= Seq::<Conversation>::empty());
            assert(b.filter(updated_at_is(b[0].updated_at)) == a.filter(updated_at_is(b[0].updated_at)));
        }
        assert(a =~= b);
    } else {
        lemma_has_key(a, 0);
        let ka = a[0].updated_at;
        assert(a.filter(updated_at_is(ka)) == b.filter(updated_at_is(ka)));
        let ib = lemma_key_present(b, ka);
        assert(b.len() > 0);
        let kb = b[0].updated_at;
        if ib > 0 {
            assert(b[0].updated_at >= b[ib].updated_at);
        }
        lemma_has_key(b, 0);
        assert(a.filter(updated_at_is(kb)) == b.filter(updated_at_is(kb)));
        let ia = lemma_key_present(a, kb);
        if ia > 0 {
            assert(a[0].updated_at >= a[ia].updated_at);
        }
        assert(ka == kb);
        lemma_filter_first(a, ka);
        lemma_filter_first(b, ka);
        let fa = a.filter(updated_at_is(ka));
        assert(fa[0] == a[0]);
        assert(fa[0] == b[0]);
        let ra = a.drop_first();
        let rb = b.drop_first();
        assert forall|t: u64| #[trigger] ra.filter(updated_at_is(t)) == rb.filter(updated_at_is(t)) by {
            lemma_filter_first(a, t);
            lemma_filter_first(b, t);
            assert(a.filter(updated_at_is(t)) == b.filter(updated_at_is(t)));
            if t == ka {
                assert(ra.filter(updated_at_is(t)) =~= a.filter(updated_at_is(t)).drop_first());
                assert(rb.filter(updated_at_is(t)) =~= b.filter(updated_at_is(t)).drop_first());
            }
        }
        assert forall|i: int, j: int| 0 <= i < j < ra.len() implies (#[trigger] ra[i]).updated_at
            >= (#[trigger] ra[j]).updated_at by {
            assert(a[i + 1].updated_at >= a[j + 1].updated_at);
        }
        assert forall|i: int, j: int| 0 <= i < j < rb.len() implies (#[trigger] rb[i]).updated_at
            >= (#[trigger] rb[j]).updated_at by {
            assert(b[i + 1].updated_at >= b[j + 1].updated_at);
        }
        lemma_same_sorted(ra, rb);
        assert(a =~= seq![a[0]] + ra);
        assert(b =~= seq![b[0]] + rb);
    }
}

} // verus!

verus! {

/// A saved conversation is listed afterwards: listing the stored
/// conversations after saving `c` shows `c`, and one more conversation than
/// before unless one with its id was replaced.
pub proof fn lemma_saved_conversation_listed(items: Seq<Conversation>, c: Conversation, listed: Seq<Conversation>)
    requires
        stably_newest_first(upserted(items, c), listed),
        listed.len() == upserted(items, c).len(),
    ensures
        listed.contains(c),
        listed.len() == items.len() + if first_with_id(items, c.id@) is Some {
            0int
        } else {
            1int
        },
{
    broadcast use Seq::lemma_filter_contains, Seq::lemma_filter_contains_rev;

    let u = upserted(items, c);
    lemma_saved_record_found(items, c);
    let p = choose|p: int| crate::records::is_first_with_id(u, c.id@, p) && u[p] == c;
    let pred = updated_at_is(c.updated_at);
    assert(pred(u[p]));
    assert(u.filter(pred).contains(u[p]));
    assert(listed.filter(pred) == u.filter(pred));
    assert(listed.filter(pred).contains(c));
}

} // verus!
