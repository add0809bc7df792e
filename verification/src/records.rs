//! Stored lists of records keyed by their id: replacing or adding a record,
//! and removing records by id.

use vstd::prelude::*;

verus! {

/// A record with a string id.
pub trait HasId {
    spec fn id_view(&self) -> Seq<char>;

    fn id_text(&self) -> (id: &String)
        ensures
            id@ == self.id_view(),
    ;
}

/// `p` is the position of the first record with the id `id`.
pub open spec fn is_first_with_id<T: HasId>(items: Seq<T>, id: Seq<char>, p: int) -> bool {
    &&& 0 <= p < items.len()
    &&& items[p].id_view() == id
    &&& forall|k: int| 0 <= k < p ==> (#[trigger] items[k]).id_view() != id
}

/// The position of the first record with the id `id`, if any.
pub open spec fn first_with_id<T: HasId>(items: Seq<T>, id: Seq<char>) -> Option<int> {
    if exists|p: int| is_first_with_id(items, id, p) {
        Some(choose|p: int| is_first_with_id(items, id, p))
    } else {
        None
    }
}

/// `items` after saving `item`: it replaces the first record with its id,
/// or, when there is none, it is added at the end.
pub open spec fn upserted<T: HasId>(items: Seq<T>, item: T) -> Seq<T> {
    match first_with_id(items, item.id_view()) {
        Some(p) => items.update(p, item),
        None => items.push(item),
    }
}

/// The records whose id is not `id`, in their order.
pub open spec fn without_id<T: HasId>(items: Seq<T>, id: Seq<char>) -> Seq<T> {
    items.filter(|x: T| x.id_view() != id)
}

/// A saved record is found again by its id: it is the first record with
/// that id.
pub proof fn lemma_saved_record_found<T: HasId>(items: Seq<T>, item: T)
    ensures
        exists|p: int| is_first_with_id(upserted(items, item), item.id_view(), p) && upserted(items, item)[p] == item,
{
    let r = upserted(items, item);
    let id = item.id_view();
    if exists|p: int| is_first_with_id(items, id, p) {
        let p = choose|p: int| is_first_with_id(items, id, p);
        assert(forall|k: int| 0 <= k < p ==> r[k] == items[k]);
        assert(is_first_with_id(r, id, p));
    } else {
        assert forall|k: int| 0 <= k < items.len() implies (#[trigger] items[k]).id_view() != id by {
            if items[k].id_view() == id {
                lemma_first_exists(items, id, k);
            }
        }
        assert(r[items.len() as int] == item);
        assert(forall|k: int| 0 <= k < items.len() ==> r[k] == items[k]);
        assert(is_first_with_id(r, id, items.len() as int));
    }
}

proof fn lemma_first_exists<T: HasId>(items: Seq<T>, id: Seq<char>, k: int)
    requires
        0 <= k < items.len(),
        items[k].id_view() == id,
    ensures
        exists|p: int| is_first_with_id(items, id, p),
    decreases k,
{
    if exists|j: int| 0 <= j < k && (#[trigger] items[j]).id_view() == id {
        let j = choose|j: int| 0 <= j < k && (#[trigger] items[j]).id_view() == id;
        lemma_first_exists(items, id, j);
    } else {
        assert(is_first_with_id(items, id, k));
    }
}

/// Saving a record leaves every record with another id as it was, in order.
pub proof fn lemma_save_keeps_others<T: HasId>(items: Seq<T>, item: T)
    ensures
        without_id(upserted(items, item), item.id_view()) == without_id(items, item.id_view()),
{
    let id = item.id_view();
    let keep = |x: T| x.id_view() != id;
    broadcast use Seq::lemma_filter_push, Seq::filter_distributes_over_add;
    match first_with_id(items, id) {
        Some(p) => {
            assert(is_first_with_id(items, id, p));
            let before = items.take(p);
            let after = items.skip(p + 1);
            assert(items =~= before + seq![items[p]] + after);
            assert(items.update(p, item) =~= before + seq![item] + after);
            assert(seq![items[p]].filter(keep) =~= Seq::<T>::empty()) by {
                assert(Seq::<T>::empty().push(items[p]) =~= seq![items[p]]);
            }
            assert(seq![item].filter(keep) =~= Seq::<T>::empty()) by {
                assert(Seq::<T>::empty().push(item) =~= seq![item]);
            }
            assert(Seq::<T>::empty().filter(keep) =~= Seq::<T>::empty());
        },
        None => {},
    }
}

/// After removing an id, no record with that id is left.
pub proof fn lemma_removed_id_absent<T: HasId>(items: Seq<T>, id: Seq<char>)
    ensures
        forall|k: int| 0 <= k < without_id(items, id).len() ==> (#[trigger] without_id(items, id)[k]).id_view() != id,
{
    broadcast use Seq::lemma_filter_pred;
}

/// Removing an id keeps every record with another id.
pub proof fn lemma_remove_keeps_others<T: HasId>(items: Seq<T>, id: Seq<char>, k: int)
    requires
        0 <= k < items.len(),
        items[k].id_view() != id,
    ensures
        without_id(items, id).contains(items[k]),
{
    broadcast use Seq::lemma_filter_contains;
    assert(items.filter(|x: T| x.id_view() != id).contains(items[k]));
}

/// The position of the first record with the id `id`.
pub fn position_of_id<T: HasId>(items: &Vec<T>, id: &String) -> (found: Option<usize>)
    ensures
        match found {
            Some(p) => first_with_id(items@, id@) == Some(p as int) && is_first_with_id(items@, id@, p as int),
            None => first_with_id(items@, id@) is None && forall|k: int|
                0 <= k < items@.len() ==> (#[trigger] items@[k]).id_view() != id@,
        },
{
    let mut i: usize = 0;
    while i < items.len()
        invariant
            i <= items@.len(),
            forall|k: int| 0 <= k < i ==> (#[trigger] items@[k]).id_view() != id@,
        decreases items@.len() - i,
    {
        if *items[i].id_text() == *id {
            assert(is_first_with_id(items@, id@, i as int));
            assert forall|p: int| is_first_with_id(items@, id@, p) implies p == i by {
                if p < i {
                    assert(items@[p].id_view() != id@);
                } else if p > i {
                    assert(items@[i as int].id_view() != id@);
                }
            }
            return Some(i);
        }
        i = i + 1;
    }
    None
}

/// Saves `item`: it replaces the first record with the same id, or is added
/// at the end when no record has that id.
pub fn upsert_by_id<T: HasId>(items: &mut Vec<T>, item: T)
    ensures
        final(items)@ == upserted(old(items)@, item),
{
    match position_of_id(items, item.id_text()) {
        Some(p) => items.set(p, item),
        None => items.push(item),
    }
}

/// Removes every record whose id is `id`, keeping the others in order.
pub fn remove_by_id<T: HasId>(items: Vec<T>, id: &String) -> (kept: Vec<T>)
    ensures
        kept@ == without_id(items@, id@),
{
    let ghost given = items@;
    let ghost keep = |x: T| x.id_view() != id@;
    let total = items.len();
    let mut rest = items;
    let mut kept: Vec<T> = Vec::new();
    let mut consumed: usize = 0;
    while rest.len() > 0
        invariant
            consumed + rest@.len() == given.len(),
            given.len() == total,
            rest@ == given.subrange(consumed as int, given.len() as int),
            kept@ == given.take(consumed as int).filter(keep),
            keep == (|x: T| x.id_view() != id@),
        decreases rest@.len(),
    {
        let x = rest.remove(0);
        proof {
            assert(given.take(consumed + 1) =~= given.take(consumed as int).push(x));
            given.take(consumed as int).lemma_filter_push(x, keep);
        }
        if !(*x.id_text() == *id) {
            kept.push(x);
        }
        consumed = consumed + 1;
        assert(rest@ =~= given.subrange(consumed as int, given.len() as int));
    }
    assert(given.take(consumed as int) =~= given);
    kept
}

} // verus!
