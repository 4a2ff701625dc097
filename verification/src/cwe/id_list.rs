use std::collections::HashMap;
use vstd::std_specs::iter::IteratorSpec;
use vstd::prelude::*;

verus! {

/// The list filed under `key`, empty where the index has no entry for it.
pub open spec fn entries(index: Map<i64, Vec<i64>>, key: i64) -> Seq<i64> {
    if index.contains_key(key) {
        index[key]@
    } else {
        Seq::empty()
    }
}

/// `base` followed by those identifiers of `more` that are not yet in the list,
/// each once, in the order of `more`.
pub open spec fn merged(base: Seq<i64>, more: Seq<i64>) -> Seq<i64>
    decreases more.len(),
{
    if more.len() == 0 {
        base
    } else {
        let so_far = merged(base, more.drop_last());
        if so_far.contains(more.last()) {
            so_far
        } else {
            so_far.push(more.last())
        }
    }
}

/// `merged(base, more)` holds what `base` or `more` holds, and repeats nothing
/// that `base` does not repeat.
pub proof fn lemma_merged(base: Seq<i64>, more: Seq<i64>)
    ensures
        forall|x: i64|
            #![trigger merged(base, more).contains(x)]
            merged(base, more).contains(x) <==> base.contains(x) || more.contains(x),
        base.no_duplicates() ==> merged(base, more).no_duplicates(),
        base.is_prefix_of(merged(base, more)),
    decreases more.len(),
{
    if more.len() > 0 {
        let front = more.drop_last();
        let so_far = merged(base, front);
        lemma_merged(base, front);
        assert forall|x: i64| merged(base, more).contains(x) <==> base.contains(x) || more.contains(
            x,
        ) by {
            if more.contains(x) {
                let i = choose|i: int| 0 <= i < more.len() && more[i] == x;
                if i < front.len() {
                    assert(front[i] == x);
                }
            }
            if front.contains(x) {
                let i = choose|i: int| 0 <= i < front.len() && front[i] == x;
                assert(more[i] == x);
            }
            if so_far.contains(x) {
                let i = choose|i: int| 0 <= i < so_far.len() && so_far[i] == x;
                assert(so_far.push(more.last())[i] == x);
            }
            if !so_far.contains(more.last()) {
                assert(so_far.push(more.last())[so_far.len() as int] == more.last());
                assert(more[more.len() - 1] == more.last());
                if so_far.push(more.last()).contains(x) {
                    let i = choose|i: int|
                        0 <= i < so_far.push(more.last()).len() && so_far.push(more.last())[i] == x;
                    if i < so_far.len() {
                        assert(so_far[i] == x);
                    }
                }
            } else {
                assert(more[more.len() - 1] == more.last());
            }
        }
    }
}

/// Removing `id` from a list without repetitions leaves the others, each once.
pub proof fn lemma_remove_value(list: Seq<i64>, id: i64)
    requires
        list.no_duplicates(),
    ensures
        list.remove_value(id).no_duplicates(),
        forall|x: i64|
            #![trigger list.remove_value(id).contains(x)]
            list.remove_value(id).contains(x) <==> list.contains(x) && x != id,
{
    let after = list.remove_value(id);
    if list.contains(id) {
        let at = list.index_of_first(id)->0;
        list.index_of_first_ensures(id);
        assert(after == list.remove(at));
        assert forall|x: i64| after.contains(x) <==> list.contains(x) && x != id by {
            if after.contains(x) {
                let i = choose|i: int| 0 <= i < after.len() && after[i] == x;
                if i < at {
                    assert(list[i] == x);
                } else {
                    assert(list[i + 1] == x);
                }
            }
            if list.contains(x) && x != id {
                let i = choose|i: int| 0 <= i < list.len() && list[i] == x;
                if i < at {
                    assert(after[i] == x);
                } else {
                    assert(after[i - 1] == x);
                }
            }
        }
    } else {
        list.index_of_first_ensures(id);
    }
}

/// Merging a single identifier into a list appends it unless the list holds it.
pub proof fn lemma_merged_one(base: Seq<i64>, id: i64)
    ensures
        merged(base, seq![id]) == if base.contains(id) {
            base
        } else {
            base.push(id)
        },
{
    assert(seq![id].drop_last() =~= Seq::<i64>::empty());
    assert(merged(base, seq![id].drop_last()) == base);
    assert(seq![id].last() == id);
}

/// Removing what a list does not hold leaves the list as it is.
pub proof fn lemma_remove_absent(list: Seq<i64>, id: i64)
    requires
        !list.contains(id),
    ensures
        list.remove_value(id) == list,
{
    list.index_of_first_ensures(id);
}

/// Whether `list` holds `id`.
pub fn contains_id(list: &Vec<i64>, id: i64) -> (found: bool)
    ensures
        found == list@.contains(id),
{
    let mut i: usize = 0;
    while i < list.len()
        invariant
            i <= list.len(),
            forall|j: int| 0 <= j < i ==> list@[j] != id,
        decreases list.len() - i,
    {
        if list[i] == id {
            return true;
        }
        i += 1;
    }
    false
}

/// Appends `id` to `list` unless the list holds it already.
pub fn insert_id(list: &mut Vec<i64>, id: i64) -> (added: bool)
    ensures
        added == !old(list)@.contains(id),
        final(list)@ == merged(old(list)@, seq![id]),
        final(list)@ == if added {
            old(list)@.push(id)
        } else {
            old(list)@
        },
{
    proof {
        lemma_merged_one(old(list)@, id);
    }
    if contains_id(list, id) {
        false
    } else {
        list.push(id);
        true
    }
}

/// Takes `id` out of a list that holds nothing twice.
pub fn remove_id(list: &mut Vec<i64>, id: i64) -> (removed: bool)
    requires
        old(list)@.no_duplicates(),
    ensures
        removed == old(list)@.contains(id),
        final(list)@ == old(list)@.remove_value(id),
{
    let mut i: usize = 0;
    while i < list.len()
        invariant
            i <= list.len(),
            list@ == old(list)@,
            forall|j: int| 0 <= j < i ==> list@[j] != id,
        decreases list.len() - i,
    {
        if list[i] == id {
            proof {
                old(list)@.index_of_first_ensures(id);
            }
            list.remove(i);
            return true;
        }
        i += 1;
    }
    proof {
        old(list)@.index_of_first_ensures(id);
    }
    false
}

/// Appends to `list` the identifiers of `more` that it does not hold yet.
pub fn extend_ids(list: &mut Vec<i64>, more: &Vec<i64>)
    ensures
        final(list)@ == merged(old(list)@, more@),
{
    let mut i: usize = 0;
    while i < more.len()
        invariant
            i <= more.len(),
            list@ == merged(old(list)@, more@.take(i as int)),
        decreases more.len() - i,
    {
        proof {
            assert(more@.take(i + 1).drop_last() =~= more@.take(i as int));
        }
        insert_id(list, more[i]);
        i += 1;
    }
    proof {
        assert(more@.take(more.len() as int) =~= more@);
    }
}

/// Files `id` under `key`, unless it is filed there already.
pub fn index_add(index: &mut HashMap<i64, Vec<i64>>, key: i64, id: i64)
    ensures
        entries(final(index)@, key) == merged(entries(old(index)@, key), seq![id]),
        forall|k: i64| k != key ==> entries(final(index)@, k) == entries(old(index)@, k),
{
    let mut list = match index.remove(&key) {
        Some(list) => list,
        None => Vec::new(),
    };
    insert_id(&mut list, id);
    index.insert(key, list);
}

/// Files under `key` the identifiers of `more` that are not filed there yet.
pub fn index_extend(index: &mut HashMap<i64, Vec<i64>>, key: i64, more: &Vec<i64>)
    ensures
        entries(final(index)@, key) == merged(entries(old(index)@, key), more@),
        forall|k: i64| k != key ==> entries(final(index)@, k) == entries(old(index)@, k),
{
    let mut list = match index.remove(&key) {
        Some(list) => list,
        None => Vec::new(),
    };
    extend_ids(&mut list, more);
    index.insert(key, list);
}

/// Takes `id` out of the list filed under `key`.
pub fn index_remove(index: &mut HashMap<i64, Vec<i64>>, key: i64, id: i64)
    requires
        entries(old(index)@, key).no_duplicates(),
    ensures
        entries(final(index)@, key) == entries(old(index)@, key).remove_value(id),
        forall|k: i64| k != key ==> entries(final(index)@, k) == entries(old(index)@, k),
{
    match index.remove(&key) {
        Some(list) => {
            let mut list = list;
            remove_id(&mut list, id);
            index.insert(key, list);
        },
        None => {
            proof {
                Seq::<i64>::empty().index_of_first_ensures(id);
            }
        },
    }
}

/// The keys of `index`, each once, in the order in which the map hands them out.
pub fn index_keys<V>(index: &HashMap<i64, V>) -> (keys: Vec<i64>)
    ensures
        keys@.no_duplicates(),
        forall|k: i64| keys@.contains(k) <==> index@.contains_key(k),
{
    let mut keys: Vec<i64> = Vec::new();
    let ghost all = index.keys().remaining();
    for key in it: index.keys()
        invariant
            it.seq() == all,
            keys@.len() == it.index(),
            forall|j: int| 0 <= j < keys@.len() ==> keys@[j] == *all[j],
    {
        keys.push(*key);
    }
    proof {
        assert(keys@ =~= all.unref());
        assert forall|k: i64| keys@.contains(k) <==> index@.contains_key(k) by {
            assert(keys@.to_set().contains(k) <==> index@.dom().contains(k));
        }
    }
    keys
}

} // verus!
