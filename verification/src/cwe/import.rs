use crate::cwe::id_list::{entries, lemma_merged};
use crate::cwe::model::{
    catalog_categories, catalog_weaknesses, declared_categories, filed_after, index_categories,
    index_weaknesses, roots_after,
};
use crate::cwe::weakness_catalog::WeaknessCatalog;
use crate::cwe::weaknesses::Weakness;
use crate::cwe::CweDatabase;
use crate::errors::Error;
use std::rc::Rc;
use vstd::prelude::*;

verus! {

impl CweDatabase {
    /// The state between the two steps that enter one weakness: the records are in
    /// order, and the hierarchy indices say what all weaknesses but `cwe_id`
    /// declare.
    closed spec fn wf_pending(&self, cwe_id: i64) -> bool {
        &&& self@.records_wf()
        &&& self@.hierarchy_matches(self@.weaknesses.remove(cwe_id))
        &&& forall|id: i64| #[trigger] entries(self.cwe_categories_index@, id).no_duplicates()
    }

    /// Enters `weakness` into the weakness index, in place of the record that had
    /// its identifier, and takes that earlier record out of the hierarchy indices.
    fn update_weakness_index(&mut self, weakness: &Rc<Weakness>)
        requires
            old(self).wf(),
        ensures
            final(self).wf_pending(weakness.id),
            final(self)@.weaknesses == old(self)@.weaknesses.insert(weakness.id, *weakness),
            final(self)@.categories == old(self)@.categories,
            final(self)@.members == old(self)@.members,
            final(self)@.catalogs == old(self)@.catalogs,
            forall|p: i64| #[trigger]
                final(self)@.filed_under(p) == old(self)@.filed_under(p).remove_value(weakness.id),
            final(self)@.roots == old(self)@.roots.remove_value(weakness.id),
    {
        let id = weakness.id;
        let ghost before = self@;
        proof {
            self.lemma_view();
        }
        let earlier = match self.weakness_index.get(&id) {
            Some(record) => Some(record.clone()),
            None => None,
        };
        match earlier {
            Some(record) => {
                let parents = record.direct_ancestors();
                proof {
                    record.lemma_parents();
                }
                let mut j: usize = 0;
                while j < parents.len()
                    invariant
                        j <= parents.len(),
                        self.weakness_index == old(self).weakness_index,
                        self.category_index == old(self).category_index,
                        self.cwe_categories_index == old(self).cwe_categories_index,
                        self.weakness_roots_index == old(self).weakness_roots_index,
                        self.catalogs == old(self).catalogs,
                        before.wf(),
                        before == old(self)@,
                        forall|p: i64| #[trigger]
                            entries(self.weakness_children_index@, p).no_duplicates(),
                        forall|p: i64, c: i64| #[trigger]
                            entries(self.weakness_children_index@, p).contains(c) <==> before.filed_under(
                                p,
                            ).contains(c) && !(c == id && parents@.take(j as int).contains(p)),
                        forall|p: i64| #[trigger]
                            entries(self.weakness_children_index@, p) == if parents@.take(
                                j as int,
                            ).contains(p) {
                                before.filed_under(p).remove_value(id)
                            } else {
                                before.filed_under(p)
                            },
                    decreases parents.len() - j,
                {
                    let parent = parents[j];
                    let ghost index_before = self.weakness_children_index@;
                    let ghost done = parents@.take(j as int);
                    let ghost done_next = parents@.take(j + 1);
                    proof {
                        crate::cwe::id_list::lemma_remove_value(entries(index_before, parent), id);
                        assert(done_next =~= done.push(parent));
                        assert forall|x: i64| done_next.contains(x) <==> done.contains(x) || x
                            == parent by {
                            if done_next.contains(x) {
                                let i = choose|i: int| 0 <= i < done_next.len() && done_next[i] == x;
                                if i < done.len() {
                                    assert(done[i] == x);
                                }
                            }
                            if done.contains(x) {
                                let i = choose|i: int| 0 <= i < done.len() && done[i] == x;
                                assert(done_next[i] == x);
                            }
                            if x == parent {
                                assert(done_next[j as int] == x);
                            }
                        }
                    }
                    crate::cwe::id_list::index_remove(&mut self.weakness_children_index, parent, id);
                    proof {
                        assert forall|p: i64| #[trigger]
                            entries(self.weakness_children_index@, p).no_duplicates() by {
                            if p != parent {
                                assert(entries(self.weakness_children_index@, p) == entries(
                                    index_before,
                                    p,
                                ));
                            }
                        }
                        assert forall|p: i64, c: i64| #[trigger]
                            entries(self.weakness_children_index@, p).contains(c)
                                <==> before.filed_under(p).contains(c) && !(c == id
                                && done_next.contains(p)) by {
                            if p != parent {
                                assert(entries(self.weakness_children_index@, p) == entries(
                                    index_before,
                                    p,
                                ));
                                assert(entries(index_before, p).contains(c) <==> before.filed_under(
                                    p,
                                ).contains(c) && !(c == id && done.contains(p)));
                            } else {
                                assert(entries(index_before, p).contains(c) <==> before.filed_under(
                                    p,
                                ).contains(c) && !(c == id && done.contains(p)));
                            }
                        }
                        assert forall|p: i64| #[trigger]
                            entries(self.weakness_children_index@, p) == if done_next.contains(p) {
                                before.filed_under(p).remove_value(id)
                            } else {
                                before.filed_under(p)
                            } by {
                            assert(entries(index_before, p) == if done.contains(p) {
                                before.filed_under(p).remove_value(id)
                            } else {
                                before.filed_under(p)
                            });
                            if p == parent {
                                crate::cwe::id_list::lemma_remove_value(before.filed_under(p), id);
                                crate::cwe::id_list::lemma_remove_absent(
                                    before.filed_under(p).remove_value(id),
                                    id,
                                );
                            } else {
                                assert(entries(self.weakness_children_index@, p) == entries(
                                    index_before,
                                    p,
                                ));
                            }
                        }
                    }
                    j += 1;
                }
                proof {
                    assert(parents@.take(parents.len() as int) =~= parents@);
                    crate::cwe::id_list::lemma_remove_value(self.weakness_roots_index@, id);
                    assert forall|p: i64| #[trigger]
                        entries(self.weakness_children_index@, p) == before.filed_under(
                            p,
                        ).remove_value(id) by {
                        if !parents@.contains(p) {
                            assert(!record.is_child_of(p));
                            assert(!before.filed_under(p).contains(id));
                            crate::cwe::id_list::lemma_remove_absent(before.filed_under(p), id);
                        }
                    }
                }
                crate::cwe::id_list::remove_id(&mut self.weakness_roots_index, id);
            },
            None => {
                proof {
                    assert forall|p: i64| #[trigger]
                        entries(self.weakness_children_index@, p) == before.filed_under(
                            p,
                        ).remove_value(id) by {
                        assert(!before.filed_under(p).contains(id));
                        crate::cwe::id_list::lemma_remove_absent(before.filed_under(p), id);
                    }
                    assert(!before.roots.contains(id));
                    crate::cwe::id_list::lemma_remove_absent(before.roots, id);
                }
            },
        }
        let ghost children_now = self.weakness_children_index@;
        self.weakness_index.insert(id, weakness.clone());
        proof {
            self.lemma_view();
            let after = self@;
            let rest = after.weaknesses.remove(id);
            assert(rest =~= before.weaknesses.remove(id));
            assert forall|p: i64| #[trigger] after.filed_under(p).no_duplicates() by {
                assert(after.filed_under(p) == entries(self.weakness_children_index@, p));
            }
            assert forall|p: i64, c: i64| #[trigger]
                after.filed_under(p).contains(c) <==> rest.contains_key(c) && rest[c].is_child_of(
                    p,
                ) by {
                assert(after.filed_under(p) == entries(self.weakness_children_index@, p));
                assert(before.filed_under(p).contains(c) <==> before.weaknesses.contains_key(c)
                    && before.weaknesses[c].is_child_of(p));
            }
            assert forall|c: i64| #[trigger]
                after.roots.contains(c) <==> rest.contains_key(c) && rest[c].is_root() by {
                assert(before.roots.contains(c) <==> before.weaknesses.contains_key(c)
                    && before.weaknesses[c].is_root());
            }
            assert(after.members =~= before.members);
            assert forall|x: i64| #[trigger] after.categories_of(x) == before.categories_of(x) by {}
            assert(after.catalog_category_ids() =~= before.catalog_category_ids());
            assert forall|p: i64| #[trigger]
                after.filed_under(p) == before.filed_under(p).remove_value(id) by {
                assert(after.filed_under(p) == entries(children_now, p));
            }
        }
    }

    /// Files `weakness`, which the weakness index holds, in the hierarchy indices:
    /// as a child of each parent that it names, or as a root where it names none.
    fn update_weakness_children_index(&mut self, weakness: &Rc<Weakness>)
        requires
            old(self).wf_pending(weakness.id),
            old(self)@.weaknesses.contains_key(weakness.id),
            old(self)@.weaknesses[weakness.id] == *weakness,
        ensures
            final(self).wf(),
            final(self)@.weaknesses == old(self)@.weaknesses,
            final(self)@.categories == old(self)@.categories,
            final(self)@.members == old(self)@.members,
            final(self)@.catalogs == old(self)@.catalogs,
            forall|p: i64| #[trigger]
                final(self)@.filed_under(p) == if weakness.is_child_of(p) {
                    old(self)@.filed_under(p).push(weakness.id)
                } else {
                    old(self)@.filed_under(p)
                },
            final(self)@.roots == if weakness.is_root() {
                old(self)@.roots.push(weakness.id)
            } else {
                old(self)@.roots
            },
    {
        let id = weakness.id;
        let ghost before = self@;
        let ghost rest = before.weaknesses.remove(id);
        let parents = weakness.direct_ancestors();
        proof {
            self.lemma_view();
            weakness.lemma_parents();
        }
        let mut j: usize = 0;
        while j < parents.len()
            invariant
                j <= parents.len(),
                self.weakness_index == old(self).weakness_index,
                self.category_index == old(self).category_index,
                self.cwe_categories_index == old(self).cwe_categories_index,
                self.weakness_roots_index == old(self).weakness_roots_index,
                self.catalogs == old(self).catalogs,
                before == old(self)@,
                rest == before.weaknesses.remove(id),
                before.hierarchy_matches(rest),
                forall|p: i64| #[trigger] entries(self.weakness_children_index@, p).no_duplicates(),
                forall|p: i64, c: i64| #[trigger]
                    entries(self.weakness_children_index@, p).contains(c) <==> before.filed_under(
                        p,
                    ).contains(c) || (c == id && parents@.take(j as int).contains(p)),
                forall|p: i64| #[trigger]
                    entries(self.weakness_children_index@, p) == if parents@.take(j as int).contains(
                        p,
                    ) {
                        before.filed_under(p).push(id)
                    } else {
                        before.filed_under(p)
                    },
            decreases parents.len() - j,
        {
            let parent = parents[j];
            let ghost index_before = self.weakness_children_index@;
            let ghost done = parents@.take(j as int);
            let ghost done_next = parents@.take(j + 1);
            proof {
                lemma_merged(entries(index_before, parent), seq![id]);
                assert(seq![id].contains(id)) by {
                    assert(seq![id][0] == id);
                }
                assert(done_next =~= done.push(parent));
                assert forall|x: i64| done_next.contains(x) <==> done.contains(x) || x
                    == parent by {
                    if done_next.contains(x) {
                        let i = choose|i: int| 0 <= i < done_next.len() && done_next[i] == x;
                        if i < done.len() {
                            assert(done[i] == x);
                        }
                    }
                    if done.contains(x) {
                        let i = choose|i: int| 0 <= i < done.len() && done[i] == x;
                        assert(done_next[i] == x);
                    }
                    if x == parent {
                        assert(done_next[j as int] == x);
                    }
                }
            }
            crate::cwe::id_list::index_add(&mut self.weakness_children_index, parent, id);
            proof {
                assert forall|p: i64| #[trigger]
                    entries(self.weakness_children_index@, p).no_duplicates() by {
                    if p != parent {
                        assert(entries(self.weakness_children_index@, p) == entries(
                            index_before,
                            p,
                        ));
                    }
                }
                assert forall|p: i64, c: i64| #[trigger]
                    entries(self.weakness_children_index@, p).contains(c) <==> before.filed_under(
                        p,
                    ).contains(c) || (c == id && done_next.contains(p)) by {
                    assert(entries(index_before, p).contains(c) <==> before.filed_under(p).contains(
                        c,
                    ) || (c == id && done.contains(p)));
                    if p != parent {
                        assert(entries(self.weakness_children_index@, p) == entries(
                            index_before,
                            p,
                        ));
                    } else {
                        if seq![id].contains(c) {
                            let i = choose|i: int| 0 <= i < seq![id].len() && seq![id][i] == c;
                            assert(c == id);
                        }
                    }
                }
                assert forall|p: i64| #[trigger]
                    entries(self.weakness_children_index@, p) == if done_next.contains(p) {
                        before.filed_under(p).push(id)
                    } else {
                        before.filed_under(p)
                    } by {
                    assert(entries(index_before, p) == if done.contains(p) {
                        before.filed_under(p).push(id)
                    } else {
                        before.filed_under(p)
                    });
                    assert(!before.filed_under(p).contains(id)) by {
                        assert(before.filed_under(p).contains(id) <==> rest.contains_key(id)
                            && rest[id].is_child_of(p));
                    }
                    if p == parent {
                        crate::cwe::id_list::lemma_merged_one(entries(index_before, p), id);
                        if done.contains(p) {
                            assert(before.filed_under(p).push(id)[before.filed_under(p).len() as int]
                                == id);
                        }
                    } else {
                        assert(entries(self.weakness_children_index@, p) == entries(
                            index_before,
                            p,
                        ));
                    }
                }
            }
            j += 1;
        }
        proof {
            assert(parents@.take(parents.len() as int) =~= parents@);
            assert(!before.roots.contains(id)) by {
                assert(before.roots.contains(id) <==> rest.contains_key(id) && rest[id].is_root());
            }
        }
        let ghost children_now = self.weakness_children_index@;
        if parents.len() == 0 {
            proof {
                lemma_merged(self.weakness_roots_index@, seq![id]);
                assert(seq![id][0] == id);
            }
            crate::cwe::id_list::insert_id(&mut self.weakness_roots_index, id);
        }
        proof {
            self.lemma_view();
            let after = self@;
            assert forall|p: i64| #[trigger] after.filed_under(p).no_duplicates() by {
                assert(after.filed_under(p) == entries(self.weakness_children_index@, p));
            }
            assert forall|p: i64, c: i64| #[trigger]
                after.filed_under(p).contains(c) <==> after.weaknesses.contains_key(c)
                    && after.weaknesses[c].is_child_of(p) by {
                assert(after.filed_under(p) == entries(self.weakness_children_index@, p));
                assert(before.filed_under(p).contains(c) <==> rest.contains_key(c)
                    && rest[c].is_child_of(p));
            }
            assert forall|c: i64| #[trigger]
                after.roots.contains(c) <==> after.weaknesses.contains_key(c)
                    && after.weaknesses[c].is_root() by {
                assert(before.roots.contains(c) <==> rest.contains_key(c) && rest[c].is_root());
                if parents.len() == 0 {
                    if seq![id].contains(c) {
                        let i = choose|i: int| 0 <= i < seq![id].len() && seq![id][i] == c;
                        assert(c == id);
                    }
                }
            }
            assert(after.members =~= before.members);
            assert forall|x: i64| #[trigger] after.categories_of(x) == before.categories_of(x) by {}
            assert(after.catalog_category_ids() =~= before.catalog_category_ids());
            assert forall|p: i64| #[trigger]
                after.filed_under(p) == if weakness.is_child_of(p) {
                    before.filed_under(p).push(id)
                } else {
                    before.filed_under(p)
                } by {
                assert(after.filed_under(p) == entries(children_now, p));
                assert(parents@.contains(p) <==> weakness.is_child_of(p));
            }
        }
    }

    /// Enters the categories of `catalog` into the category table, and each of
    /// them under every weakness that it declares as a member.
    fn update_category_index(&mut self, catalog: &WeaknessCatalog)
        requires
            old(self).wf(),
        ensures
            final(self).wf(),
            final(self)@.weaknesses == old(self)@.weaknesses,
            final(self)@.children == old(self)@.children,
            final(self)@.roots == old(self)@.roots,
            final(self)@.catalogs == old(self)@.catalogs,
            final(self)@.categories == index_categories(
                old(self)@.categories,
                catalog_categories(*catalog),
            ),
            forall|id: i64| #[trigger]
                final(self)@.categories_of(id) == old(self)@.categories_of(id).union(
                    declared_categories(catalog_categories(*catalog), id),
                ),
    {
        let ghost before = self@;
        let ghost old_index = self.cwe_categories_index@;
        let ghost batch = catalog_categories(*catalog);
        proof {
            self.lemma_view();
        }
        match &catalog.categories {
            Some(categories) => {
                let list = &categories.categories;
                let mut k: usize = 0;
                proof {
                    assert forall|id: i64| #[trigger]
                        entries(self.cwe_categories_index@, id).to_set() == entries(
                            old_index,
                            id,
                        ).to_set().union(declared_categories(list@.take(0), id)) by {
                        assert(entries(old_index, id).to_set().union(
                            declared_categories(list@.take(0), id),
                        ) =~= entries(old_index, id).to_set());
                    }
                }
                while k < list.len()
                    invariant
                        k <= list.len(),
                        list@ == batch,
                        self.weakness_index == old(self).weakness_index,
                        self.weakness_children_index == old(self).weakness_children_index,
                        self.weakness_roots_index == old(self).weakness_roots_index,
                        self.catalogs == old(self).catalogs,
                        self.category_index@ == index_categories(
                            old(self).category_index@,
                            list@.take(k as int),
                        ),
                        forall|id: i64| #[trigger]
                            entries(self.cwe_categories_index@, id).no_duplicates(),
                        forall|id: i64| #[trigger]
                            entries(self.cwe_categories_index@, id).to_set() == entries(
                                old_index,
                                id,
                            ).to_set().union(declared_categories(list@.take(k as int), id)),
                    decreases list.len() - k,
                {
                    let category = &list[k];
                    let category_id = category.id;
                    let ghost done = list@.take(k as int);
                    let ghost done_next = list@.take(k + 1);
                    let ghost index_at_start = self.cwe_categories_index@;
                    proof {
                        assert(done_next.drop_last() =~= done);
                        assert(done_next.last() == *category);
                    }
                    self.category_index.insert(category_id, category.clone());
                    let members = &category.relationships.has_members;
                    let mut m: usize = 0;
                    proof {
                        assert forall|id: i64| #[trigger]
                            entries(self.cwe_categories_index@, id).to_set() == entries(
                                index_at_start,
                                id,
                            ).to_set().union(
                                if category.members().take(0).contains(id) {
                                    set![category_id]
                                } else {
                                    Set::<i64>::empty()
                                },
                            ) by {
                            assert(entries(index_at_start, id).to_set().union(Set::<i64>::empty())
                                =~= entries(index_at_start, id).to_set());
                        }
                    }
                    while m < members.len()
                        invariant
                            m <= members.len(),
                            k < list.len(),
                            members@ == category.relationships.has_members@,
                            category_id == category.id,
                            self.weakness_index == old(self).weakness_index,
                            self.weakness_children_index == old(self).weakness_children_index,
                            self.weakness_roots_index == old(self).weakness_roots_index,
                            self.catalogs == old(self).catalogs,
                            self.category_index@ == index_categories(
                                old(self).category_index@,
                                done_next,
                            ),
                            forall|id: i64| #[trigger]
                                entries(self.cwe_categories_index@, id).no_duplicates(),
                            forall|id: i64| #[trigger]
                                entries(self.cwe_categories_index@, id).to_set() == entries(
                                    index_at_start,
                                    id,
                                ).to_set().union(
                                    if category.members().take(m as int).contains(id) {
                                        set![category_id]
                                    } else {
                                        Set::<i64>::empty()
                                    },
                                ),
                        decreases members.len() - m,
                    {
                        let member = members[m].cwe_id;
                        let ghost index_before = self.cwe_categories_index@;
                        let ghost seen = category.members().take(m as int);
                        let ghost seen_next = category.members().take(m + 1);
                        proof {
                            lemma_merged(entries(index_before, member), seq![category_id]);
                            assert(seq![category_id][0] == category_id);
                            assert(seen_next =~= seen.push(member));
                            assert forall|x: i64| seen_next.contains(x) <==> seen.contains(x) || x
                                == member by {
                                if seen_next.contains(x) {
                                    let i = choose|i: int|
                                        0 <= i < seen_next.len() && seen_next[i] == x;
                                    if i < seen.len() {
                                        assert(seen[i] == x);
                                    }
                                }
                                if seen.contains(x) {
                                    let i = choose|i: int| 0 <= i < seen.len() && seen[i] == x;
                                    assert(seen_next[i] == x);
                                }
                                if x == member {
                                    assert(seen_next[m as int] == x);
                                }
                            }
                        }
                        crate::cwe::id_list::index_add(
                            &mut self.cwe_categories_index,
                            member,
                            category_id,
                        );
                        proof {
                            assert forall|id: i64| #[trigger]
                                entries(self.cwe_categories_index@, id).no_duplicates() by {
                                if id != member {
                                    assert(entries(self.cwe_categories_index@, id) == entries(
                                        index_before,
                                        id,
                                    ));
                                }
                            }
                            assert forall|id: i64| #[trigger]
                                entries(self.cwe_categories_index@, id).to_set() == entries(
                                    index_at_start,
                                    id,
                                ).to_set().union(
                                    if seen_next.contains(id) {
                                        set![category_id]
                                    } else {
                                        Set::<i64>::empty()
                                    },
                                ) by {
                                let now = entries(self.cwe_categories_index@, id);
                                let was = entries(index_before, id);
                                assert(was.to_set() == entries(index_at_start, id).to_set().union(
                                    if seen.contains(id) {
                                        set![category_id]
                                    } else {
                                        Set::<i64>::empty()
                                    },
                                ));
                                if id != member {
                                    assert(now == was);
                                } else {
                                    assert forall|c: i64| now.to_set().contains(c)
                                        <==> was.to_set().contains(c) || c == category_id by {
                                        if seq![category_id].contains(c) {
                                            let i = choose|i: int|
                                                0 <= i < seq![category_id].len()
                                                    && seq![category_id][i] == c;
                                            assert(c == category_id);
                                        }
                                    }
                                    assert(now.to_set() =~= entries(
                                        index_at_start,
                                        id,
                                    ).to_set().union(set![category_id]));
                                }
                            }
                        }
                        m += 1;
                    }
                    proof {
                        assert(category.members().take(members.len() as int)
                            =~= category.members());
                        assert forall|id: i64| #[trigger]
                            entries(self.cwe_categories_index@, id).to_set() == entries(
                                old_index,
                                id,
                            ).to_set().union(declared_categories(done_next, id)) by {
                            let now = entries(self.cwe_categories_index@, id).to_set();
                            let start = entries(index_at_start, id).to_set();
                            assert(start == entries(old_index, id).to_set().union(
                                declared_categories(done, id),
                            ));
                            assert forall|c: i64|
                                declared_categories(done_next, id).contains(c)
                                    <==> declared_categories(done, id).contains(c) || (c
                                    == category_id && category.members().contains(id)) by {
                                if declared_categories(done_next, id).contains(c) {
                                    let i = choose|i: int|
                                        0 <= i < done_next.len() && (#[trigger] done_next[i]).id
                                            == c && done_next[i].members().contains(id);
                                    if i < done.len() {
                                        assert(done[i] == done_next[i]);
                                    }
                                }
                                if declared_categories(done, id).contains(c) {
                                    let i = choose|i: int|
                                        0 <= i < done.len() && (#[trigger] done[i]).id == c
                                            && done[i].members().contains(id);
                                    assert(done_next[i] == done[i]);
                                }
                                if c == category_id && category.members().contains(id) {
                                    assert(done_next[k as int] == *category);
                                }
                            }
                            assert(now =~= entries(old_index, id).to_set().union(
                                declared_categories(done_next, id),
                            ));
                        }
                    }
                    k += 1;
                }
                proof {
                    assert(list@.take(list.len() as int) =~= list@);
                }
            },
            None => {
                proof {
                    assert forall|id: i64| #[trigger]
                        entries(self.cwe_categories_index@, id).to_set() == entries(
                            old_index,
                            id,
                        ).to_set().union(declared_categories(batch, id)) by {
                        assert(entries(old_index, id).to_set().union(
                            declared_categories(batch, id),
                        ) =~= entries(old_index, id).to_set());
                    }
                }
            },
        }
        proof {
            self.lemma_view();
            let after = self@;
            crate::cwe::model::lemma_index_categories(before.categories, batch);
            assert(after.children =~= before.children);
            assert forall|id: i64, c: i64| #[trigger]
                after.categories_of(id).contains(c) implies after.categories.contains_key(c) by {
                if before.categories_of(id).contains(c) {
                    assert(before.categories.contains_key(c));
                } else {
                    let i = choose|i: int|
                        0 <= i < batch.len() && (#[trigger] batch[i]).id == c
                            && batch[i].members().contains(id);
                    assert(after.categories.contains_key(batch[i].id));
                }
            }
            assert(after.catalog_category_ids() =~= before.catalog_category_ids());
            assert forall|p: i64| #[trigger] after.filed_under(p) == before.filed_under(p) by {}
        }
    }

    /// Stores `catalog` under its name, in place of the catalog that had the name.
    fn store_catalog(&mut self, catalog: WeaknessCatalog)
        requires
            old(self).wf(),
            forall|k: int|
                0 <= k < catalog_categories(catalog).len() ==> old(self)@.categories.contains_key(
                    (#[trigger] catalog_categories(catalog)[k]).id,
                ),
        ensures
            final(self).wf(),
            final(self)@.weaknesses == old(self)@.weaknesses,
            final(self)@.children == old(self)@.children,
            final(self)@.roots == old(self)@.roots,
            final(self)@.categories == old(self)@.categories,
            final(self)@.members == old(self)@.members,
            final(self)@.catalogs == crate::cwe::model::store_catalog(old(self)@.catalogs, catalog),
    {
        let ghost before = self@;
        proof {
            self.lemma_view();
        }
        let mut k: usize = 0;
        let mut found: Option<usize> = None;
        while k < self.catalogs.len()
            invariant_except_break
                found is None,
                forall|j: int| 0 <= j < k ==> (#[trigger] self.catalogs@[j]).name@ != catalog.name@,
            invariant
                k <= self.catalogs.len(),
                *self == *old(self),
            ensures
                *self == *old(self),
                match found {
                    Some(at) => at < self.catalogs.len() && self.catalogs@[at as int].name@
                        == catalog.name@,
                    None => forall|j: int|
                        0 <= j < self.catalogs.len() ==> (#[trigger] self.catalogs@[j]).name@
                            != catalog.name@,
                },
            decreases self.catalogs.len() - k,
        {
            if self.catalogs[k].name == catalog.name {
                found = Some(k);
                break ;
            }
            k += 1;
        }
        let ghost stored = crate::cwe::model::store_catalog(before.catalogs, catalog);
        match found {
            Some(at) => {
                proof {
                    let pick = choose|j: int|
                        0 <= j < before.catalogs.len() && (#[trigger] before.catalogs[j]).name@
                            == catalog.name@;
                    assert(before.catalogs[at as int].name@ == catalog.name@);
                    assert(pick == at) by {
                        if pick < at {
                            assert(before.catalogs[pick].name@ != before.catalogs[at as int].name@);
                        }
                        if at < pick {
                            assert(before.catalogs[at as int].name@ != before.catalogs[pick].name@);
                        }
                    }
                }
                self.catalogs.set(at, catalog);
            },
            None => {
                self.catalogs.push(catalog);
            },
        }
        proof {
            self.lemma_view();
            let after = self@;
            assert(after.catalogs == stored);
            assert(after.children =~= before.children);
            assert(after.members =~= before.members);
            assert forall|x: i64| #[trigger] after.categories_of(x) == before.categories_of(x) by {}
            assert forall|p: i64| #[trigger] after.filed_under(p) == before.filed_under(p) by {}
            assert forall|i: int, j: int| 0 <= i < j < after.catalogs.len() implies (
            #[trigger] after.catalogs[i]).name@ != (#[trigger] after.catalogs[j]).name@ by {
                match found {
                    Some(at) => {
                        if i != at && j != at {
                            assert(before.catalogs[i].name@ != before.catalogs[j].name@);
                        } else if i == at {
                            assert(before.catalogs[at as int].name@ != before.catalogs[j].name@);
                        } else {
                            assert(before.catalogs[i].name@ != before.catalogs[at as int].name@);
                        }
                    },
                    None => {
                        if j < before.catalogs.len() {
                            assert(before.catalogs[i].name@ != before.catalogs[j].name@);
                        } else {
                            assert(before.catalogs[i].name@ != catalog.name@);
                        }
                    },
                }
            }
            assert forall|c: i64| #[trigger]
                after.catalog_category_ids().contains(c) implies after.categories.contains_key(
                c,
            ) by {
                let i = choose|i: int|
                    0 <= i < after.catalogs.len() && crate::cwe::model::category_ids(
                        catalog_categories(#[trigger] after.catalogs[i]),
                    ).contains(c);
                if after.catalogs[i] == catalog {
                    let j = choose|j: int|
                        0 <= j < catalog_categories(catalog).len() && (
                        #[trigger] catalog_categories(catalog)[j]).id == c;
                    assert(before.categories.contains_key(catalog_categories(catalog)[j].id));
                } else {
                    assert(before.catalogs[i] == after.catalogs[i]);
                    assert(before.catalog_category_ids().contains(c));
                }
            }
        }
    }

    /// Merges the records of `catalog` into the indices.
    fn update_indexes(&mut self, catalog: &WeaknessCatalog)
        requires
            old(self).wf(),
        ensures
            final(self).wf(),
            final(self)@.weaknesses == index_weaknesses(
                old(self)@.weaknesses,
                catalog_weaknesses(*catalog),
            ),
            final(self)@.categories == index_categories(
                old(self)@.categories,
                catalog_categories(*catalog),
            ),
            forall|id: i64| #[trigger]
                final(self)@.categories_of(id) == old(self)@.categories_of(id).union(
                    declared_categories(catalog_categories(*catalog), id),
                ),
            final(self)@.catalogs == old(self)@.catalogs,
            forall|p: i64| #[trigger]
                final(self)@.filed_under(p) == filed_after(
                    old(self)@.filed_under(p),
                    catalog_weaknesses(*catalog),
                    p,
                ),
            final(self)@.roots == roots_after(old(self)@.roots, catalog_weaknesses(*catalog)),
    {
        self.update_category_index(catalog);
        let ghost middle = self@;
        proof {
            assert forall|p: i64| #[trigger] middle.filed_under(p) == old(self)@.filed_under(p) by {}
        }
        match &catalog.weaknesses {
            Some(weaknesses) => {
                let list = &weaknesses.weaknesses;
                let mut k: usize = 0;
                while k < list.len()
                    invariant
                        k <= list.len(),
                        list@ == catalog_weaknesses(*catalog),
                        self.wf(),
                        self@.weaknesses == index_weaknesses(
                            old(self)@.weaknesses,
                            list@.take(k as int),
                        ),
                        self@.categories == middle.categories,
                        self@.members == middle.members,
                        self@.catalogs == middle.catalogs,
                        forall|p: i64| #[trigger]
                            self@.filed_under(p) == filed_after(
                                old(self)@.filed_under(p),
                                list@.take(k as int),
                                p,
                            ),
                        self@.roots == roots_after(old(self)@.roots, list@.take(k as int)),
                    decreases list.len() - k,
                {
                    proof {
                        assert(list@.take(k + 1).drop_last() =~= list@.take(k as int));
                    }
                    let weakness = &list[k];
                    let ghost entered = self@;
                    self.update_weakness_index(weakness);
                    let ghost pending = self@;
                    self.update_weakness_children_index(weakness);
                    proof {
                        assert(list@.take(k + 1).last() == *weakness);
                        assert forall|p: i64| #[trigger]
                            self@.filed_under(p) == filed_after(
                                old(self)@.filed_under(p),
                                list@.take(k + 1),
                                p,
                            ) by {
                            assert(pending.filed_under(p) == entered.filed_under(p).remove_value(
                                weakness.id,
                            ));
                            assert(entered.filed_under(p) == filed_after(
                                old(self)@.filed_under(p),
                                list@.take(k as int),
                                p,
                            ));
                        }
                    }
                    k += 1;
                }
                proof {
                    assert(list@.take(list.len() as int) =~= list@);
                }
            },
            None => {},
        }
        proof {
            assert forall|id: i64| #[trigger] self@.categories_of(id) == middle.categories_of(id) by {}
        }
    }

    /// Takes a parsed catalog into the database: its weaknesses and categories are
    /// merged into the indices, and the catalog itself is stored under its name.
    pub fn import_weakness_catalog(&mut self, catalog: WeaknessCatalog)
        requires
            old(self).wf(),
        ensures
            final(self).wf(),
            final(self)@.follows_import(old(self)@, catalog),
    {
        self.update_indexes(&catalog);
        proof {
            crate::cwe::model::lemma_index_categories(
                old(self)@.categories,
                catalog_categories(catalog),
            );
        }
        let ghost middle = self@;
        self.store_catalog(catalog);
        proof {
            assert forall|id: i64| #[trigger] self@.categories_of(id) == middle.categories_of(id) by {}
            assert forall|p: i64| #[trigger] self@.filed_under(p) == middle.filed_under(p) by {}
        }
    }

    /// Finishes an import whose catalog was read and parsed elsewhere. A parsed
    /// catalog is taken into the database; a failure is reported as an invalid
    /// catalog file named `file`, and leaves the database as it was.
    pub fn import_parsed_catalog(
        &mut self,
        file: String,
        parsed: Result<WeaknessCatalog, String>,
    ) -> (imported: Result<(), Error>)
        requires
            old(self).wf(),
        ensures
            final(self).wf(),
            match parsed {
                Ok(catalog) => imported is Ok && final(self)@.follows_import(
                    old(self)@,
                    catalog,
                ),
                Err(reason) => imported matches Err(e) && e.source_name() == file@ && e.reason()
                    == reason@ && final(self)@ == old(self)@,
            },
    {
        match parsed {
            Ok(catalog) => {
                self.import_weakness_catalog(catalog);
                Ok(())
            },
            Err(reason) => Err(Error::invalid_cwe_file(file, reason)),
        }
    }
}

} // verus!
