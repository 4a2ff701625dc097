use crate::cwe::id_list::{
    entries, extend_ids, index_extend, index_keys, lemma_merged, merged,
};
use crate::cwe::model::trace_view;
use crate::cwe::CweDatabase;
use std::collections::HashMap;
use vstd::prelude::*;

verus! {

impl CweDatabase {
    /// What an upward round gives weakness `cwe_id`: the union of the categories
    /// of its direct children where the weakness has no category and at most one
    /// child has none; nothing otherwise.
    fn propagated_from_children(&self, cwe_id: i64) -> (adopted: Option<Vec<i64>>)
        requires
            self.wf(),
        ensures
            adopted is Some <==> self@.adopts(cwe_id),
            adopted matches Some(categories) ==> categories@.no_duplicates()
                && categories@.to_set() == self@.categories_among(self@.children_of(cwe_id)),
    {
        proof {
            self.lemma_view();
        }
        if !self.weakness_index.contains_key(&cwe_id) || self.has_category(cwe_id) {
            return None;
        }
        let mut categories: Vec<i64> = Vec::new();
        let mut no_category_count: usize = 0;
        let ghost kids_seq = self@.children_of(cwe_id);
        match self.children_list(cwe_id) {
            Some(kids) => {
                let mut i: usize = 0;
                while i < kids.len()
                    invariant
                        self.wf(),
                        kids@ == kids_seq,
                        i <= kids.len(),
                        no_category_count <= i,
                        no_category_count == self@.uncategorized_count(kids@.take(i as int)),
                        categories@.no_duplicates(),
                        categories@.to_set() == self@.categories_among(kids@.take(i as int)),
                    decreases kids.len() - i,
                {
                    let kid = kids[i];
                    let ghost before = kids@.take(i as int);
                    let ghost after = kids@.take(i + 1);
                    proof {
                        self.lemma_view();
                        assert(after.drop_last() =~= before);
                        assert(after.last() == kid);
                    }
                    let ghost old_categories = categories@;
                    match self.cwe_categories_index.get(&kid) {
                        Some(of_kid) => {
                            if of_kid.len() > 0 {
                                extend_ids(&mut categories, of_kid);
                            } else {
                                no_category_count += 1;
                            }
                        },
                        None => {
                            no_category_count += 1;
                        },
                    }
                    proof {
                        let of_kid = entries(self.cwe_categories_index@, kid);
                        lemma_merged(old_categories, of_kid);
                        assert(categories@ == merged(old_categories, of_kid)) by {
                            if of_kid.len() == 0 {
                                assert(merged(old_categories, of_kid) == old_categories);
                            }
                        }
                        assert(categories@.to_set() =~= self@.categories_among(after)) by {
                            assert forall|c: i64|
                                categories@.to_set().contains(c)
                                    <==> self@.categories_among(after).contains(c) by {
                                if categories@.contains(c) {
                                    if old_categories.contains(c) {
                                        assert(old_categories.to_set().contains(c));
                                        let j = choose|j: int|
                                            0 <= j < before.len() && self@.categories_of(
                                                #[trigger] before[j],
                                            ).contains(c);
                                        assert(after[j] == before[j]);
                                    } else {
                                        assert(of_kid.to_set().contains(c));
                                        assert(after[i as int] == kid);
                                    }
                                }
                                if self@.categories_among(after).contains(c) {
                                    let j = choose|j: int|
                                        0 <= j < after.len() && self@.categories_of(
                                            #[trigger] after[j],
                                        ).contains(c);
                                    if j < i {
                                        assert(before[j] == after[j]);
                                        assert(self@.categories_among(before).contains(c));
                                        assert(old_categories.to_set().contains(c));
                                    } else {
                                        assert(of_kid.to_set().contains(c));
                                    }
                                }
                            }
                        }
                    }
                    i += 1;
                }
                proof {
                    assert(kids@.take(kids.len() as int) =~= kids@);
                }
            },
            None => {
                proof {
                    assert(categories@.to_set() =~= self@.categories_among(kids_seq));
                }
            },
        }
        if no_category_count <= 1 {
            Some(categories)
        } else {
            None
        }
    }

    /// The changes of one upward round: each weakness that takes over a non-empty
    /// union from its children, with that union.
    fn collect_round(&self) -> (updates: Vec<(i64, Vec<i64>)>)
        requires
            self.wf(),
        ensures
            forall|k: int|
                0 <= k < updates@.len() ==> {
                    let (id, categories) = #[trigger] updates@[k];
                    &&& self@.adopts(id)
                    &&& categories@.len() > 0
                    &&& categories@.no_duplicates()
                    &&& categories@.to_set() == self@.categories_among(self@.children_of(id))
                },
            forall|i: int, j: int|
                0 <= i < j < updates@.len() ==> (#[trigger] updates@[i]).0 != (
                #[trigger] updates@[j]).0,
            forall|id: i64|
                self@.adopts(id) && self@.categories_among(self@.children_of(id)) != Set::<
                    i64,
                >::empty() ==> exists|k: int|
                    0 <= k < updates@.len() && (#[trigger] updates@[k]).0 == id,
    {
        let ids = index_keys(&self.weakness_index);
        let mut updates: Vec<(i64, Vec<i64>)> = Vec::new();
        let mut i: usize = 0;
        proof {
            self.lemma_view();
        }
        while i < ids.len()
            invariant
                self.wf(),
                i <= ids.len(),
                ids@.no_duplicates(),
                forall|id: i64| ids@.contains(id) <==> self@.weaknesses.contains_key(id),
                forall|k: int|
                    0 <= k < updates@.len() ==> {
                        let (id, categories) = #[trigger] updates@[k];
                        &&& self@.adopts(id)
                        &&& categories@.len() > 0
                        &&& categories@.no_duplicates()
                        &&& categories@.to_set() == self@.categories_among(self@.children_of(id))
                        &&& ids@.take(i as int).contains(id)
                    },
                forall|a: int, b: int|
                    0 <= a < b < updates@.len() ==> (#[trigger] updates@[a]).0 != (
                    #[trigger] updates@[b]).0,
                forall|id: i64|
                    ids@.take(i as int).contains(id) && self@.adopts(id) && self@.categories_among(
                        self@.children_of(id),
                    ) != Set::<i64>::empty() ==> exists|k: int|
                        0 <= k < updates@.len() && (#[trigger] updates@[k]).0 == id,
            decreases ids.len() - i,
        {
            let id = ids[i];
            let ghost seen = ids@.take(i as int);
            let ghost seen_next = ids@.take(i + 1);
            let ghost before = updates@;
            proof {
                assert(seen_next =~= seen.push(id));
                assert(!seen.contains(id)) by {
                    if seen.contains(id) {
                        let j = choose|j: int| 0 <= j < seen.len() && seen[j] == id;
                        assert(ids@[j] == id && ids@[i as int] == id);
                    }
                }
                assert forall|x: i64| seen_next.contains(x) <==> seen.contains(x) || x == id by {
                    if seen_next.contains(x) {
                        let j = choose|j: int| 0 <= j < seen_next.len() && seen_next[j] == x;
                        if j < seen.len() {
                            assert(seen[j] == x);
                        }
                    }
                    if seen.contains(x) {
                        let j = choose|j: int| 0 <= j < seen.len() && seen[j] == x;
                        assert(seen_next[j] == x);
                    }
                    if x == id {
                        assert(seen_next[i as int] == x);
                    }
                }
            }
            match self.propagated_from_children(id) {
                Some(categories) => {
                    if categories.len() > 0 {
                        updates.push((id, categories));
                        proof {
                            assert(updates@[before.len() as int].0 == id);
                            assert forall|k: int| 0 <= k < before.len() implies updates@[k]
                                == before[k] by {}
                            assert forall|x: i64|
                                seen_next.contains(x) && self@.adopts(x)
                                    && self@.categories_among(self@.children_of(x)) != Set::<
                                    i64,
                                >::empty() implies exists|k: int|
                                    0 <= k < updates@.len() && (#[trigger] updates@[k]).0 == x by {
                                if x != id {
                                    let k = choose|k: int|
                                        0 <= k < before.len() && (#[trigger] before[k]).0 == x;
                                    assert(updates@[k].0 == x);
                                }
                            }
                        }
                    } else {
                        proof {
                            assert(categories@.to_set() =~= Set::<i64>::empty());
                        }
                    }
                },
                None => {},
            }
            i += 1;
        }
        proof {
            assert(ids@.take(ids.len() as int) =~= ids@);
        }
        updates
    }

    /// Enters the changes of one upward round into the category index.
    fn apply_round(&mut self, updates: &Vec<(i64, Vec<i64>)>)
        requires
            old(self).wf(),
            forall|k: int|
                0 <= k < updates@.len() ==> {
                    let (id, categories) = #[trigger] updates@[k];
                    &&& old(self)@.adopts(id)
                    &&& categories@.len() > 0
                    &&& categories@.no_duplicates()
                    &&& categories@.to_set() == old(self)@.categories_among(
                        old(self)@.children_of(id),
                    )
                },
            forall|i: int, j: int|
                0 <= i < j < updates@.len() ==> (#[trigger] updates@[i]).0 != (
                #[trigger] updates@[j]).0,
            forall|id: i64|
                old(self)@.adopts(id) && old(self)@.categories_among(old(self)@.children_of(id))
                    != Set::<i64>::empty() ==> exists|k: int|
                    0 <= k < updates@.len() && (#[trigger] updates@[k]).0 == id,
        ensures
            final(self).wf(),
            final(self)@ == old(self)@.upward_round(),
    {
        let ghost before = self@;
        let ghost old_index = self.cwe_categories_index@;
        proof {
            self.lemma_view();
        }
        let mut k: usize = 0;
        while k < updates.len()
            invariant
                k <= updates.len(),
                self.weakness_index == old(self).weakness_index,
                self.category_index == old(self).category_index,
                self.weakness_children_index == old(self).weakness_children_index,
                self.weakness_roots_index == old(self).weakness_roots_index,
                self.catalogs == old(self).catalogs,
                forall|id: i64| #[trigger]
                    entries(self.cwe_categories_index@, id).no_duplicates(),
                forall|id: i64|
                    (forall|j: int| 0 <= j < k ==> (#[trigger] updates@[j]).0 != id)
                        ==> #[trigger] entries(self.cwe_categories_index@, id) == entries(
                        old_index,
                        id,
                    ),
                forall|j: int|
                    0 <= j < k ==> entries(
                        self.cwe_categories_index@,
                        (#[trigger] updates@[j]).0,
                    ).to_set() == updates@[j].1@.to_set(),
                forall|j: int|
                    0 <= j < updates@.len() ==> entries(old_index, (#[trigger] updates@[j]).0).len()
                        == 0 && updates@[j].1@.no_duplicates(),
                forall|i: int, j: int|
                    0 <= i < j < updates@.len() ==> (#[trigger] updates@[i]).0 != (
                    #[trigger] updates@[j]).0,
            decreases updates.len() - k,
        {
            let id = updates[k].0;
            let ghost index_before = self.cwe_categories_index@;
            proof {
                assert(entries(index_before, id) == entries(old_index, id));
                lemma_merged(entries(index_before, id), updates@[k as int].1@);
            }
            index_extend(&mut self.cwe_categories_index, id, &updates[k].1);
            proof {
                let list = entries(self.cwe_categories_index@, id);
                assert(list.to_set() =~= updates@[k as int].1@.to_set()) by {
                    assert(entries(index_before, id) =~= Seq::<i64>::empty());
                }
                assert forall|x: i64| #[trigger]
                    entries(self.cwe_categories_index@, x).no_duplicates() by {
                    if x != id {
                        assert(entries(self.cwe_categories_index@, x) == entries(index_before, x));
                    } else {
                        assert(Seq::<i64>::empty().no_duplicates());
                    }
                }
                assert forall|j: int| 0 <= j < k + 1 implies entries(
                    self.cwe_categories_index@,
                    (#[trigger] updates@[j]).0,
                ).to_set() == updates@[j].1@.to_set() by {
                    if j < k {
                        assert(updates@[j].0 != updates@[k as int].0);
                        assert(entries(self.cwe_categories_index@, updates@[j].0) == entries(
                            index_before,
                            updates@[j].0,
                        ));
                    }
                }
                assert forall|x: i64|
                    (forall|j: int| 0 <= j < k + 1 ==> (#[trigger] updates@[j]).0 != x)
                        implies #[trigger] entries(self.cwe_categories_index@, x) == entries(
                    old_index,
                    x,
                ) by {
                    assert(updates@[k as int].0 != x);
                    assert(entries(self.cwe_categories_index@, x) == entries(index_before, x));
                    assert(forall|j: int| 0 <= j < k ==> (#[trigger] updates@[j]).0 != x);
                }
            }
            k += 1;
        }
        proof {
            self.lemma_view();
            let of = |id: i64| before.round_categories(id);
            assert forall|id: i64| #[trigger] self@.categories_of(id) == of(id) by {
                let now = entries(self.cwe_categories_index@, id);
                if exists|j: int| 0 <= j < updates@.len() && (#[trigger] updates@[j]).0 == id {
                    let j = choose|j: int| 0 <= j < updates@.len() && (#[trigger] updates@[j]).0 == id;
                    assert(now.to_set() == updates@[j].1@.to_set());
                } else {
                    assert(now == entries(old_index, id));
                    assert(before.categories_of(id) == now.to_set());
                    if before.adopts(id) {
                        assert(before.categories_among(before.children_of(id)) == Set::<
                            i64,
                        >::empty());
                        assert(before.categories_of(id) == Set::<i64>::empty());
                    }
                }
            }
            assert(self@.children =~= before.children);
            before.lemma_members_canonical(self@, of);
            before.lemma_round_wf();
        }
    }

    /// Propagate categories to ancestors that don't have any categories yet and
    /// have at most one child that has no category defined.
    /// This is a heuristic to infer categories for weaknesses that have no
    /// categories defined. The rounds are repeated until one changes nothing.
    pub fn infer_categories_from_descendants(&mut self)
        requires
            old(self).wf(),
        ensures
            final(self).wf(),
            final(self)@ == old(self)@.saturate_upward(),
    {
        loop
            invariant
                self.wf(),
                self@.saturate_upward() == old(self)@.saturate_upward(),
            ensures
                self.wf(),
                self@ == old(self)@.saturate_upward(),
            decreases self@.uncategorized_weaknesses().len(),
        {
            let updates = self.collect_round();
            let ghost before = self@;
            if updates.len() == 0 {
                proof {
                    assert forall|id: i64| #[trigger]
                        before.round_categories(id) == before.categories_of(id) by {
                        if before.adopts(id) {
                            assert(before.categories_among(before.children_of(id)) == Set::<
                                i64,
                            >::empty());
                        }
                    }
                    assert(before.upward_stable());
                }
                break ;
            }
            proof {
                let (id, categories) = updates@[0];
                assert(categories@.to_set().contains(categories@[0]));
                assert(before.round_categories(id) != before.categories_of(id));
                assert(!before.upward_stable());
                before.lemma_round_progress();
            }
            self.apply_round(&updates);
        }
    }

    /// Adds `categories` to what `inferred_categories` holds for `cwe_id` and for
    /// every weakness in its subtree.
    fn propagate_categories_to_subtree(
        &self,
        cwe_id: i64,
        categories: &Vec<i64>,
        inferred_categories: &mut HashMap<i64, Vec<i64>>,
    )
        requires
            self.wf(),
            forall|id: i64| #[trigger] entries(old(inferred_categories)@, id).no_duplicates(),
        ensures
            forall|id: i64| #[trigger] entries(final(inferred_categories)@, id).no_duplicates(),
            forall|id: i64, c: i64|
                #![trigger entries(final(inferred_categories)@, id).contains(c)]
                entries(final(inferred_categories)@, id).contains(c) <==> entries(
                    old(inferred_categories)@,
                    id,
                ).contains(c) || (self@.inherits_from(id, cwe_id) && categories@.contains(c)),
    {
        let trace = self.walk_trace(cwe_id);
        let ghost walk = self@.walk_from(cwe_id);
        let ghost start = inferred_categories@;
        let mut i: usize = 0;
        while i < trace.len()
            invariant
                i <= trace.len(),
                trace_view(trace@) == walk,
                forall|id: i64| #[trigger] entries(inferred_categories@, id).no_duplicates(),
                forall|id: i64, c: i64|
                    #![trigger entries(inferred_categories@, id).contains(c)]
                    entries(inferred_categories@, id).contains(c) <==> entries(start, id).contains(
                        c,
                    ) || (categories@.contains(c) && exists|k: int|
                        0 <= k < i && (#[trigger] walk[k]).id == id),
            decreases trace.len() - i,
        {
            let target = trace[i].1;
            let ghost before = inferred_categories@;
            proof {
                lemma_merged(entries(before, target), categories@);
                assert(walk[i as int].id == target);
            }
            index_extend(inferred_categories, target, categories);
            proof {
                assert forall|id: i64| #[trigger]
                    entries(inferred_categories@, id).no_duplicates() by {
                    if id != target {
                        assert(entries(inferred_categories@, id) == entries(before, id));
                    }
                }
                assert forall|id: i64, c: i64|
                    #![trigger entries(inferred_categories@, id).contains(c)]
                    entries(inferred_categories@, id).contains(c) <==> entries(start, id).contains(
                        c,
                    ) || (categories@.contains(c) && exists|k: int|
                        0 <= k < i + 1 && (#[trigger] walk[k]).id == id) by {
                    assert(entries(before, id).contains(c) <==> entries(start, id).contains(c) || (
                    categories@.contains(c) && exists|k: int|
                        0 <= k < i && (#[trigger] walk[k]).id == id));
                    if id != target {
                        assert(entries(inferred_categories@, id) == entries(before, id));
                    }
                    if exists|k: int| 0 <= k < i && (#[trigger] walk[k]).id == id {
                        let k = choose|k: int| 0 <= k < i && (#[trigger] walk[k]).id == id;
                        assert(0 <= k < i + 1 && walk[k].id == id);
                    }
                    if exists|k: int| 0 <= k < i + 1 && (#[trigger] walk[k]).id == id {
                        let k = choose|k: int| 0 <= k < i + 1 && (#[trigger] walk[k]).id == id;
                        if k < i {
                            assert(exists|k: int| 0 <= k < i && (#[trigger] walk[k]).id == id);
                        } else {
                            assert(id == target);
                        }
                    }
                }
            }
            i += 1;
        }
        proof {
            self.lemma_wf();
            assert forall|id: i64, c: i64|
                #![trigger entries(inferred_categories@, id).contains(c)]
                entries(inferred_categories@, id).contains(c) <==> entries(start, id).contains(c)
                    || (self@.inherits_from(id, cwe_id) && categories@.contains(c)) by {
                self@.lemma_inherits_from(id, cwe_id);
                assert(entries(inferred_categories@, id).contains(c) <==> entries(
                    start,
                    id,
                ).contains(c) || (categories@.contains(c) && exists|k: int|
                    0 <= k < trace@.len() && (#[trigger] walk[k]).id == id));
            }
        }
    }

    /// Sub-weaknesses inherit the categories of their parent weaknesses.
    pub fn infer_categories_from_ancestors(&mut self)
        requires
            old(self).wf(),
        ensures
            final(self).wf(),
            final(self)@ == old(self)@.saturate_downward(),
    {
        let ghost before = self@;
        let ghost old_index = self.cwe_categories_index@;
        let mut inferred_categories: HashMap<i64, Vec<i64>> = HashMap::new();
        let starts = index_keys(&self.cwe_categories_index);
        let mut i: usize = 0;
        proof {
            self.lemma_wf();
            self.lemma_view();
        }
        while i < starts.len()
            invariant
                i <= starts.len(),
                self.wf(),
                self@ == before,
                self.cwe_categories_index@ == old_index,
                forall|id: i64| #[trigger] entries(inferred_categories@, id).no_duplicates(),
                forall|id: i64, c: i64|
                    #![trigger entries(inferred_categories@, id).contains(c)]
                    entries(inferred_categories@, id).contains(c) <==> exists|k: int|
                        0 <= k < i && before.inherits_from(id, #[trigger] starts@[k]) && entries(
                            old_index,
                            starts@[k],
                        ).contains(c),
            decreases starts.len() - i,
        {
            let start = starts[i];
            let ghost held = inferred_categories@;
            match self.cwe_categories_index.get(&start) {
                Some(categories) => {
                    self.propagate_categories_to_subtree(start, categories, &mut inferred_categories);
                },
                None => {},
            }
            proof {
                assert forall|id: i64, c: i64|
                    #![trigger entries(inferred_categories@, id).contains(c)]
                    entries(inferred_categories@, id).contains(c) <==> exists|k: int|
                        0 <= k < i + 1 && before.inherits_from(id, #[trigger] starts@[k])
                            && entries(old_index, starts@[k]).contains(c) by {
                    assert(entries(held, id).contains(c) <==> exists|k: int|
                        0 <= k < i && before.inherits_from(id, #[trigger] starts@[k]) && entries(
                            old_index,
                            starts@[k],
                        ).contains(c));
                    assert(entries(inferred_categories@, id).contains(c) <==> entries(
                        held,
                        id,
                    ).contains(c) || (before.inherits_from(id, start) && entries(
                        old_index,
                        start,
                    ).contains(c)));
                    if exists|k: int|
                        0 <= k < i && before.inherits_from(id, #[trigger] starts@[k]) && entries(
                            old_index,
                            starts@[k],
                        ).contains(c) {
                        let k = choose|k: int|
                            0 <= k < i && before.inherits_from(id, #[trigger] starts@[k])
                                && entries(old_index, starts@[k]).contains(c);
                        assert(0 <= k < i + 1 && before.inherits_from(id, starts@[k]) && entries(
                            old_index,
                            starts@[k],
                        ).contains(c));
                    }
                    if before.inherits_from(id, start) && entries(old_index, start).contains(c) {
                        assert(starts@[i as int] == start);
                    }
                    if exists|k: int|
                        0 <= k < i + 1 && before.inherits_from(id, #[trigger] starts@[k])
                            && entries(old_index, starts@[k]).contains(c) {
                        let k = choose|k: int|
                            0 <= k < i + 1 && before.inherits_from(id, #[trigger] starts@[k])
                                && entries(old_index, starts@[k]).contains(c);
                        if k < i {
                            assert(entries(held, id).contains(c));
                        }
                    }
                }
            }
            i += 1;
        }
        let ghost inferred = inferred_categories@;
        proof {
            assert forall|id: i64| #[trigger]
                entries(inferred, id).to_set() == before.inherited(id) by {
                assert forall|c: i64| entries(inferred, id).to_set().contains(c)
                    <==> before.inherited(id).contains(c) by {
                    if entries(inferred, id).contains(c) {
                        let k = choose|k: int|
                            0 <= k < starts@.len() && before.inherits_from(id, #[trigger] starts@[k])
                                && entries(old_index, starts@[k]).contains(c);
                        assert(before.categories_of(starts@[k]).contains(c));
                    }
                    if before.inherited(id).contains(c) {
                        let from = choose|from: i64|
                            before.inherits_from(id, from) && (#[trigger] before.categories_of(
                                from,
                            )).contains(c);
                        assert(entries(old_index, from).to_set().contains(c));
                        assert(old_index.contains_key(from));
                        assert(starts@.contains(from));
                        let k = choose|k: int| 0 <= k < starts@.len() && starts@[k] == from;
                        assert(before.inherits_from(id, starts@[k]) && entries(
                            old_index,
                            starts@[k],
                        ).contains(c));
                    }
                }
                assert(entries(inferred, id).to_set() =~= before.inherited(id));
            }
        }
        let targets = index_keys(&inferred_categories);
        let mut j: usize = 0;
        while j < targets.len()
            invariant
                j <= targets.len(),
                self.weakness_index == old(self).weakness_index,
                self.category_index == old(self).category_index,
                self.weakness_children_index == old(self).weakness_children_index,
                self.weakness_roots_index == old(self).weakness_roots_index,
                self.catalogs == old(self).catalogs,
                inferred_categories@ == inferred,
                targets@.no_duplicates(),
                forall|id: i64| targets@.contains(id) <==> inferred.contains_key(id),
                forall|id: i64| #[trigger] entries(self.cwe_categories_index@, id).no_duplicates(),
                forall|id: i64| #[trigger] entries(old_index, id).no_duplicates(),
                forall|id: i64| #[trigger]
                    entries(self.cwe_categories_index@, id).to_set() == if targets@.take(
                        j as int,
                    ).contains(id) {
                        entries(old_index, id).to_set().union(entries(inferred, id).to_set())
                    } else {
                        entries(old_index, id).to_set()
                    },
            decreases targets.len() - j,
        {
            let target = targets[j];
            let ghost index_before = self.cwe_categories_index@;
            let ghost done = targets@.take(j as int);
            let ghost done_next = targets@.take(j + 1);
            proof {
                assert(done_next =~= done.push(target));
                assert(!done.contains(target)) by {
                    if done.contains(target) {
                        let k = choose|k: int| 0 <= k < done.len() && done[k] == target;
                        assert(targets@[k] == target && targets@[j as int] == target);
                    }
                }
                assert forall|x: i64| done_next.contains(x) <==> done.contains(x) || x
                    == target by {
                    if done_next.contains(x) {
                        let k = choose|k: int| 0 <= k < done_next.len() && done_next[k] == x;
                        if k < done.len() {
                            assert(done[k] == x);
                        }
                    }
                    if done.contains(x) {
                        let k = choose|k: int| 0 <= k < done.len() && done[k] == x;
                        assert(done_next[k] == x);
                    }
                    if x == target {
                        assert(done_next[j as int] == x);
                    }
                }
                assert(targets@.contains(target));
            }
            match inferred_categories.get(&target) {
                Some(categories) => {
                    proof {
                        lemma_merged(entries(index_before, target), categories@);
                    }
                    index_extend(&mut self.cwe_categories_index, target, categories);
                    proof {
                        let now = entries(self.cwe_categories_index@, target);
                        let was = entries(index_before, target);
                        assert(categories@ == entries(inferred, target));
                        assert(was.to_set() == entries(old_index, target).to_set());
                        assert forall|c: i64| now.to_set().contains(c) <==> entries(
                            old_index,
                            target,
                        ).to_set().contains(c) || entries(inferred, target).to_set().contains(
                            c,
                        ) by {
                            assert(now.contains(c) <==> was.contains(c) || categories@.contains(c));
                            assert(was.to_set().contains(c) <==> was.contains(c));
                        }
                        assert(now.to_set() =~= entries(old_index, target).to_set().union(
                            entries(inferred, target).to_set(),
                        ));
                    }
                },
                None => {
                    proof {
                        assert(false);
                    }
                },
            }
            proof {
                assert forall|id: i64| #[trigger]
                    entries(self.cwe_categories_index@, id).no_duplicates() by {
                    if id != target {
                        assert(entries(self.cwe_categories_index@, id) == entries(
                            index_before,
                            id,
                        ));
                    }
                }
                assert forall|id: i64| #[trigger]
                    entries(self.cwe_categories_index@, id).to_set() == if done_next.contains(id) {
                        entries(old_index, id).to_set().union(entries(inferred, id).to_set())
                    } else {
                        entries(old_index, id).to_set()
                    } by {
                    if id != target {
                        assert(entries(self.cwe_categories_index@, id) == entries(
                            index_before,
                            id,
                        ));
                        assert(entries(index_before, id).to_set() == if done.contains(id) {
                            entries(old_index, id).to_set().union(entries(inferred, id).to_set())
                        } else {
                            entries(old_index, id).to_set()
                        });
                    }
                }
            }
            j += 1;
        }
        proof {
            assert(targets@.take(targets.len() as int) =~= targets@);
            self.lemma_view();
            let of = |id: i64| before.inherited(id);
            assert forall|id: i64| #[trigger] self@.categories_of(id) == of(id) by {
                let now = entries(self.cwe_categories_index@, id).to_set();
                before.lemma_inherited_keeps(id);
                assert(before.categories_of(id) == entries(old_index, id).to_set());
                if targets@.contains(id) {
                    assert(now =~= before.inherited(id));
                } else {
                    assert(!inferred.contains_key(id));
                    assert(entries(inferred, id).to_set() =~= Set::<i64>::empty());
                    assert(now =~= before.inherited(id));
                }
            }
            assert(self@.children =~= before.children);
            before.lemma_members_canonical(self@, of);
            before.lemma_downward_wf();
        }
    }
}

} // verus!
