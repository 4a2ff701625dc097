pub mod categories;
pub mod content_history;
pub mod external_references;
pub mod id_list;
mod import;
mod inference;
pub mod laws;
pub mod model;
pub mod notes;
pub mod reach;
pub mod relationships;
pub mod structured_text;
pub mod views;
mod walk;
pub mod weakness_catalog;
pub mod weaknesses;

use crate::cwe::categories::Category;
use crate::cwe::id_list::{contains_id, entries, lemma_merged};
use crate::cwe::model::{
    catalog_categories, category_ids, index_categories, members_from, DatabaseView, Visit,
};
use crate::cwe::weakness_catalog::WeaknessCatalog;
use crate::cwe::weaknesses::Weakness;
use std::collections::HashMap;
use std::rc::Rc;
use vstd::prelude::*;

verus! {

/// A database of weaknesses and categories, merged from any number of catalogs.
#[derive(Debug)]
pub struct CweDatabase {
    catalogs: Vec<WeaknessCatalog>,
    weakness_index: HashMap<i64, Rc<Weakness>>,
    category_index: HashMap<i64, Rc<Category>>,
    cwe_categories_index: HashMap<i64, Vec<i64>>,
    weakness_children_index: HashMap<i64, Vec<i64>>,
    weakness_roots_index: Vec<i64>,
}

/// Receives the weaknesses of a database one by one, each with its depth in the
/// hierarchy.
pub trait WeaknessVisitor {
    /// What a visit makes of the visitor: `self` is what visitor `before` has
    /// become once it was handed `weakness` of database `db` at depth `level`.
    /// A visitor that says nothing of itself admits every outcome.
    open spec fn visited(
        &self,
        before: &Self,
        db: DatabaseView,
        level: nat,
        weakness: Rc<Weakness>,
    ) -> bool {
        true
    }

    fn visit(&mut self, db: &CweDatabase, level: usize, weakness: Rc<Weakness>)
        requires
            db.wf(),
        ensures
            final(self).visited(old(self), db@, level as nat, weakness),
    ;
}

/// The records that `table` holds for `ids`, in the order of `ids`.
pub open spec fn weakness_records(ids: Seq<i64>, table: Map<i64, Rc<Weakness>>) -> Seq<
    Rc<Weakness>,
> {
    Seq::new(ids.len(), |i: int| table[ids[i]])
}

/// `list` holds the record that `table` has for each identifier in `ids`, each
/// once, and nothing else.
pub open spec fn lists_weaknesses(
    list: Seq<Rc<Weakness>>,
    ids: Set<i64>,
    table: Map<i64, Rc<Weakness>>,
) -> bool {
    &&& forall|i: int|
        0 <= i < list.len() ==> ids.contains((#[trigger] list[i]).id) && table.contains_key(
            list[i].id,
        ) && list[i] == table[list[i].id]
    &&& forall|i: int, j: int|
        0 <= i < j < list.len() ==> (#[trigger] list[i]).id != (#[trigger] list[j]).id
    &&& forall|id: i64|
        ids.contains(id) ==> exists|i: int| 0 <= i < list.len() && (#[trigger] list[i]).id == id
}

/// `list` holds the record that `table` has for each identifier in `ids`, each
/// once, and nothing else.
pub open spec fn lists_categories(
    list: Seq<Rc<Category>>,
    ids: Set<i64>,
    table: Map<i64, Rc<Category>>,
) -> bool {
    &&& forall|i: int|
        0 <= i < list.len() ==> ids.contains((#[trigger] list[i]).id) && table.contains_key(
            list[i].id,
        ) && list[i] == table[list[i].id]
    &&& forall|i: int, j: int|
        0 <= i < j < list.len() ==> (#[trigger] list[i]).id != (#[trigger] list[j]).id
    &&& forall|id: i64|
        ids.contains(id) ==> exists|i: int| 0 <= i < list.len() && (#[trigger] list[i]).id == id
}

/// `order` is the walk `walk`, each step with the record that `table` holds for
/// the weakness visited.
pub open spec fn visits_match(
    order: Seq<(usize, Rc<Weakness>)>,
    walk: Seq<Visit>,
    table: Map<i64, Rc<Weakness>>,
) -> bool {
    &&& order.len() == walk.len()
    &&& forall|k: int|
        0 <= k < order.len() ==> (#[trigger] order[k]).0 == walk[k].level && table.contains_key(
            walk[k].id,
        ) && order[k].1 == table[walk[k].id]
}

/// Visitor `end` is what visitor `start` has become once it was handed the steps
/// of `walk` in order, each with its depth and with the record that `db` holds
/// of the weakness visited.
pub open spec fn handed_in_turn<V: WeaknessVisitor>(
    start: V,
    end: V,
    db: DatabaseView,
    walk: Seq<Visit>,
) -> bool
    decreases walk.len(),
{
    if walk.len() == 0 {
        end == start
    } else {
        exists|middle: V|
            handed_in_turn(start, middle, db, walk.drop_last()) && #[trigger] end.visited(
                &middle,
                db,
                walk.last().level,
                db.weaknesses[walk.last().id],
            )
    }
}

impl View for CweDatabase {
    type V = DatabaseView;

    closed spec fn view(&self) -> DatabaseView {
        DatabaseView {
            weaknesses: self.weakness_index@,
            children: Map::new(
                |p: i64| self.weakness_children_index@.contains_key(p),
                |p: i64| self.weakness_children_index@[p]@,
            ),
            roots: self.weakness_roots_index@,
            categories: self.category_index@,
            members: members_from(|id: i64| entries(self.cwe_categories_index@, id).to_set()),
            catalogs: self.catalogs@,
        }
    }
}

impl Default for CweDatabase {
    fn default() -> (db: CweDatabase)
        ensures
            db.wf(),
            db@ == DatabaseView::empty(),
    {
        CweDatabase::new()
    }
}

impl CweDatabase {
    /// The invariant that every operation of the database keeps: the content is
    /// valid, and no category is filed twice under one weakness.
    pub closed spec fn wf(&self) -> bool {
        &&& self@.wf()
        &&& forall|id: i64| #[trigger] entries(self.cwe_categories_index@, id).no_duplicates()
    }

    /// A valid database has valid content.
    pub proof fn lemma_wf(&self)
        requires
            self.wf(),
        ensures
            self@.wf(),
    {
    }

    /// What the content says, read off the fields.
    proof fn lemma_view(&self)
        ensures
            self@.weaknesses == self.weakness_index@,
            self@.categories == self.category_index@,
            self@.roots == self.weakness_roots_index@,
            self@.catalogs == self.catalogs@,
            forall|id: i64|
                #![trigger self@.categories_of(id)]
                #![trigger entries(self.cwe_categories_index@, id)]
                self@.categories_of(id) == entries(self.cwe_categories_index@, id).to_set(),
            forall|id: i64|
                self@.uncategorized(id) <==> (#[trigger] entries(
                    self.cwe_categories_index@,
                    id,
                )).len() == 0,
            forall|p: i64|
                #![trigger self@.filed_under(p)]
                #![trigger entries(self.weakness_children_index@, p)]
                self@.filed_under(p) == entries(self.weakness_children_index@, p),
            forall|id: i64| #[trigger]
                self@.members.contains_key(id) ==> self@.members[id] != Set::<i64>::empty(),
    {
        assert forall|id: i64|
            self@.uncategorized(id) <==> (#[trigger] entries(
                self.cwe_categories_index@,
                id,
            )).len() == 0 by {
            let list = entries(self.cwe_categories_index@, id);
            if list.len() == 0 {
                assert(list.to_set() =~= Set::<i64>::empty());
            } else {
                assert(list.to_set().contains(list[0]));
            }
        }
    }

    /// Create a new empty CWE database.
    pub fn new() -> (db: CweDatabase)
        ensures
            db.wf(),
            db@ == DatabaseView::empty(),
    {
        let db = CweDatabase {
            catalogs: Vec::new(),
            weakness_index: HashMap::new(),
            category_index: HashMap::new(),
            cwe_categories_index: HashMap::new(),
            weakness_children_index: HashMap::new(),
            weakness_roots_index: Vec::new(),
        };
        proof {
            assert(db@.children =~= Map::empty());
            assert forall|id: i64| #[trigger]
                entries(db.cwe_categories_index@, id).to_set() == Set::<i64>::empty() by {
                assert(entries(db.cwe_categories_index@, id).to_set() =~= Set::<i64>::empty());
            }
            assert(db@.members =~= Map::empty());
            assert(db@.catalog_category_ids() =~= Set::empty());
        }
        db
    }

    /// Returns a reference to a Weakness struct if the CWE-ID exists in the catalog.
    pub fn weakness_by_cwe_id(&self, cwe_id: i64) -> (found: Option<Rc<Weakness>>)
        ensures
            found == self@.weaknesses.get(cwe_id),
    {
        match self.weakness_index.get(&cwe_id) {
            Some(weakness) => Some(weakness.clone()),
            None => None,
        }
    }

    /// Returns the merged record of a category if its identifier is known.
    pub fn category_by_id(&self, category_id: i64) -> (found: Option<Rc<Category>>)
        ensures
            found == self@.categories.get(category_id),
    {
        match self.category_index.get(&category_id) {
            Some(category) => Some(category.clone()),
            None => None,
        }
    }

    /// Whether at least one category applies to `cwe_id`.
    fn has_category(&self, cwe_id: i64) -> (some: bool)
        ensures
            some == !self@.uncategorized(cwe_id),
    {
        proof {
            self.lemma_view();
        }
        match self.cwe_categories_index.get(&cwe_id) {
            Some(categories) => categories.len() > 0,
            None => false,
        }
    }

    /// The direct children of weakness `cwe_id`, as the hierarchy index files them.
    fn children_list(&self, cwe_id: i64) -> (kids: Option<&Vec<i64>>)
        ensures
            match kids {
                Some(list) => list@ == self@.children_of(cwe_id),
                None => self@.children_of(cwe_id) == Seq::<i64>::empty(),
            },
    {
        proof {
            self.lemma_view();
        }
        if self.weakness_index.contains_key(&cwe_id) {
            self.weakness_children_index.get(&cwe_id)
        } else {
            None
        }
    }

    /// The records of `ids`, all of which are known, in the order of `ids`.
    fn records_of(&self, ids: &Vec<i64>) -> (records: Vec<Rc<Weakness>>)
        requires
            forall|i: int| 0 <= i < ids@.len() ==> self@.weaknesses.contains_key(#[trigger] ids@[i]),
        ensures
            records@ == weakness_records(ids@, self@.weaknesses),
    {
        let mut records: Vec<Rc<Weakness>> = Vec::new();
        let mut i: usize = 0;
        proof {
            self.lemma_view();
        }
        while i < ids.len()
            invariant
                i <= ids.len(),
                self@.weaknesses == self.weakness_index@,
                forall|j: int|
                    0 <= j < ids@.len() ==> self@.weaknesses.contains_key(#[trigger] ids@[j]),
                records@ == weakness_records(ids@.take(i as int), self@.weaknesses),
            decreases ids.len() - i,
        {
            let found = self.weakness_index.get(&ids[i]);
            proof {
                assert(self@.weaknesses.contains_key(ids@[i as int]));
            }
            match found {
                Some(record) => {
                    records.push(record.clone());
                },
                None => {
                    proof {
                        assert(false);
                    }
                },
            }
            proof {
                assert(records@ =~= weakness_records(ids@.take(i + 1), self@.weaknesses));
            }
            i += 1;
        }
        proof {
            assert(ids@.take(ids.len() as int) =~= ids@);
        }
        records
    }

    /// Returns a list of weaknesses that are children of a given CWE-ID.
    pub fn weakness_children_by_cwe_id(&self, cwe_id: i64) -> (kids: Vec<Rc<Weakness>>)
        requires
            self.wf(),
        ensures
            kids@ == weakness_records(self@.children_of(cwe_id), self@.weaknesses),
    {
        proof {
            self.lemma_wf();
        }
        match self.children_list(cwe_id) {
            Some(ids) => {
                proof {
                    assert forall|i: int| 0 <= i < ids@.len() implies self@.weaknesses.contains_key(
                        #[trigger] ids@[i],
                    ) by {
                        assert(self@.filed_under(cwe_id).contains(ids@[i]));
                    }
                }
                self.records_of(ids)
            },
            None => {
                let kids: Vec<Rc<Weakness>> = Vec::new();
                proof {
                    assert(kids@ =~= weakness_records(Seq::<i64>::empty(), self@.weaknesses));
                }
                kids
            },
        }
    }

    /// Returns a list of weaknesses that are roots, i.e. they have no parents.
    pub fn weakness_roots(&self) -> (roots: Vec<Rc<Weakness>>)
        requires
            self.wf(),
        ensures
            roots@ == weakness_records(self@.roots, self@.weaknesses),
    {
        proof {
            self.lemma_wf();
            self.lemma_view();
            assert forall|i: int|
                0 <= i < self.weakness_roots_index@.len() implies self@.weaknesses.contains_key(
                #[trigger] self.weakness_roots_index@[i],
            ) by {
                assert(self@.roots.contains(self.weakness_roots_index@[i]));
            }
        }
        self.records_of(&self.weakness_roots_index)
    }

    /// Returns the direct weakness ancestors of a given CWE-ID.
    pub fn direct_ancestors_by_cwe_id(&self, cwe_id: i64) -> (ancestors: Vec<Rc<Weakness>>)
        requires
            self.wf(),
        ensures
            ancestors@ == weakness_records(self@.direct_ancestors(cwe_id), self@.weaknesses),
    {
        let mut ids: Vec<i64> = Vec::new();
        proof {
            self.lemma_view();
        }
        match self.weakness_index.get(&cwe_id) {
            Some(weakness) => {
                let parents = weakness.direct_ancestors();
                let mut i: usize = 0;
                while i < parents.len()
                    invariant
                        i <= parents.len(),
                        self@.weaknesses == self.weakness_index@,
                        ids@ == self@.known_among(parents@.take(i as int)),
                    decreases parents.len() - i,
                {
                    proof {
                        assert(parents@.take(i + 1).drop_last() =~= parents@.take(i as int));
                    }
                    let parent = parents[i];
                    if self.weakness_index.contains_key(&parent) && !contains_id(&ids, parent) {
                        ids.push(parent);
                    }
                    i += 1;
                }
                proof {
                    assert(parents@.take(parents.len() as int) =~= parents@);
                    self@.lemma_known_among(parents@);
                }
            },
            None => {},
        }
        proof {
            assert forall|i: int| 0 <= i < ids@.len() implies self@.weaknesses.contains_key(
                #[trigger] ids@[i],
            ) by {
                assert(ids@.contains(ids@[i]));
            }
        }
        self.records_of(&ids)
    }

    /// Returns a list of categories for a given CWE-ID.
    pub fn categories_by_cwe_id(&self, cwe_id: i64) -> (categories: Vec<Rc<Category>>)
        requires
            self.wf(),
        ensures
            lists_categories(categories@, self@.categories_of(cwe_id), self@.categories),
    {
        proof {
            self.lemma_wf();
            self.lemma_view();
            assert(entries(self.cwe_categories_index@, cwe_id).no_duplicates());
        }
        match self.cwe_categories_index.get(&cwe_id) {
            Some(ids) => {
                proof {
                    assert(ids@ == entries(self.cwe_categories_index@, cwe_id));
                    assert forall|i: int| 0 <= i < ids@.len() implies self@.categories.contains_key(
                        #[trigger] ids@[i],
                    ) by {
                        assert(ids@.to_set().contains(ids@[i]));
                        assert(self@.categories_of(cwe_id).contains(ids@[i]));
                    }
                }
                self.category_records(ids)
            },
            None => {
                let categories: Vec<Rc<Category>> = Vec::new();
                proof {
                    assert(self@.categories_of(cwe_id) =~= Set::<i64>::empty());
                }
                categories
            },
        }
    }

    /// The merged records of the categories `ids`, all of which are known.
    fn category_records(&self, ids: &Vec<i64>) -> (records: Vec<Rc<Category>>)
        requires
            self.wf(),
            ids@.no_duplicates(),
            forall|i: int| 0 <= i < ids@.len() ==> self@.categories.contains_key(#[trigger] ids@[i]),
        ensures
            lists_categories(records@, ids@.to_set(), self@.categories),
            records@.len() == ids@.len(),
            forall|i: int| 0 <= i < ids@.len() ==> (#[trigger] records@[i]).id == ids@[i],
    {
        let mut records: Vec<Rc<Category>> = Vec::new();
        let mut i: usize = 0;
        proof {
            self.lemma_wf();
            self.lemma_view();
        }
        while i < ids.len()
            invariant
                i <= ids.len(),
                self@.wf(),
                self@.categories == self.category_index@,
                forall|j: int|
                    0 <= j < ids@.len() ==> self@.categories.contains_key(#[trigger] ids@[j]),
                records@.len() == i,
                forall|j: int|
                    0 <= j < i ==> (#[trigger] records@[j]).id == ids@[j] && records@[j]
                        == self@.categories[ids@[j]],
            decreases ids.len() - i,
        {
            let found = self.category_index.get(&ids[i]);
            proof {
                assert(self@.categories.contains_key(ids@[i as int]));
            }
            match found {
                Some(record) => {
                    records.push(record.clone());
                },
                None => {
                    proof {
                        assert(false);
                    }
                },
            }
            i += 1;
        }
        proof {
            assert forall|id: i64| ids@.to_set().contains(id) implies exists|j: int|
                0 <= j < records@.len() && (#[trigger] records@[j]).id == id by {
                let j = choose|j: int| 0 <= j < ids@.len() && ids@[j] == id;
                assert(records@[j].id == id);
            }
            assert forall|j: int| 0 <= j < records@.len() implies ids@.to_set().contains(
                (#[trigger] records@[j]).id,
            ) by {
                assert(ids@.contains(ids@[j]));
            }
        }
        records
    }

    /// Merge the given categories into the category index for the given CWE-ID.
    pub fn merge_categories_by_cwe_id(&mut self, cwe_id: i64, categories: Vec<Rc<Category>>)
        requires
            old(self).wf(),
        ensures
            final(self).wf(),
            final(self)@.follows_merge(old(self)@, cwe_id, categories@),
    {
        let ghost before = self@;
        let ghost old_index = self.cwe_categories_index@;
        proof {
            self.lemma_wf();
            self.lemma_view();
            assert forall|id: i64| #[trigger]
                entries(self.cwe_categories_index@, id).to_set() == entries(
                    old_index,
                    id,
                ).to_set().union(
                    if id == cwe_id {
                        category_ids(categories@.take(0))
                    } else {
                        Set::<i64>::empty()
                    },
                ) by {
                assert(entries(old_index, id).to_set().union(Set::<i64>::empty()) =~= entries(
                    old_index,
                    id,
                ).to_set());
                assert(category_ids(categories@.take(0)) =~= Set::<i64>::empty());
            }
        }
        let mut k: usize = 0;
        while k < categories.len()
            invariant
                k <= categories.len(),
                self.weakness_index == old(self).weakness_index,
                self.weakness_children_index == old(self).weakness_children_index,
                self.weakness_roots_index == old(self).weakness_roots_index,
                self.catalogs == old(self).catalogs,
                self.category_index@ == index_categories(
                    old(self).category_index@,
                    categories@.take(k as int),
                ),
                forall|id: i64| #[trigger] entries(self.cwe_categories_index@, id).no_duplicates(),
                forall|id: i64| #[trigger]
                    entries(self.cwe_categories_index@, id).to_set() == entries(
                        old_index,
                        id,
                    ).to_set().union(
                        if id == cwe_id {
                            category_ids(categories@.take(k as int))
                        } else {
                            Set::<i64>::empty()
                        },
                    ),
            decreases categories.len() - k,
        {
            let category = &categories[k];
            let category_id = category.id;
            let ghost done = categories@.take(k as int);
            let ghost done_next = categories@.take(k + 1);
            let ghost index_before = self.cwe_categories_index@;
            proof {
                assert(done_next.drop_last() =~= done);
                assert(done_next.last() == *category);
                lemma_merged(entries(index_before, cwe_id), seq![category_id]);
                assert(seq![category_id][0] == category_id);
            }
            self.category_index.insert(category_id, category.clone());
            crate::cwe::id_list::index_add(&mut self.cwe_categories_index, cwe_id, category_id);
            proof {
                assert forall|id: i64| #[trigger]
                    entries(self.cwe_categories_index@, id).no_duplicates() by {
                    if id != cwe_id {
                        assert(entries(self.cwe_categories_index@, id) == entries(
                            index_before,
                            id,
                        ));
                    }
                }
                assert forall|c: i64|
                    category_ids(done_next).contains(c) <==> category_ids(done).contains(c) || c
                        == category_id by {
                    if category_ids(done_next).contains(c) {
                        let i = choose|i: int|
                            0 <= i < done_next.len() && (#[trigger] done_next[i]).id == c;
                        if i < done.len() {
                            assert(done[i] == done_next[i]);
                        }
                    }
                    if category_ids(done).contains(c) {
                        let i = choose|i: int| 0 <= i < done.len() && (#[trigger] done[i]).id == c;
                        assert(done_next[i] == done[i]);
                    }
                    if c == category_id {
                        assert(done_next[k as int] == *category);
                    }
                }
                assert forall|id: i64| #[trigger]
                    entries(self.cwe_categories_index@, id).to_set() == entries(
                        old_index,
                        id,
                    ).to_set().union(
                        if id == cwe_id {
                            category_ids(done_next)
                        } else {
                            Set::<i64>::empty()
                        },
                    ) by {
                    let now = entries(self.cwe_categories_index@, id);
                    let was = entries(index_before, id);
                    assert(was.to_set() == entries(old_index, id).to_set().union(
                        if id == cwe_id {
                            category_ids(done)
                        } else {
                            Set::<i64>::empty()
                        },
                    ));
                    if id != cwe_id {
                        assert(now == was);
                    } else {
                        assert forall|c: i64| now.to_set().contains(c) <==> was.to_set().contains(c)
                            || c == category_id by {
                            if seq![category_id].contains(c) {
                                let i = choose|i: int|
                                    0 <= i < seq![category_id].len() && seq![category_id][i] == c;
                                assert(c == category_id);
                            }
                        }
                        assert(now.to_set() =~= entries(old_index, id).to_set().union(
                            category_ids(done_next),
                        ));
                    }
                }
            }
            k += 1;
        }
        proof {
            assert(categories@.take(categories.len() as int) =~= categories@);
            self.lemma_view();
            let after = self@;
            crate::cwe::model::lemma_index_categories(before.categories, categories@);
            assert(after.children =~= before.children);
            assert forall|id: i64, c: i64| #[trigger]
                after.categories_of(id).contains(c) implies after.categories.contains_key(c) by {
                if before.categories_of(id).contains(c) {
                    assert(before.categories.contains_key(c));
                } else {
                    let i = choose|i: int|
                        0 <= i < categories@.len() && (#[trigger] categories@[i]).id == c;
                    assert(after.categories.contains_key(categories@[i].id));
                }
            }
            assert(after.catalog_category_ids() =~= before.catalog_category_ids());
            assert forall|p: i64| #[trigger] after.filed_under(p) == before.filed_under(p) by {}
        }
    }

    /// Returns a list of all categories in the database (across all catalogs).
    pub fn all_categories(&self) -> (categories: Vec<Rc<Category>>)
        requires
            self.wf(),
        ensures
            lists_categories(categories@, self@.catalog_category_ids(), self@.categories),
    {
        let mut ids: Vec<i64> = Vec::new();
        let mut k: usize = 0;
        proof {
            self.lemma_wf();
            self.lemma_view();
        }
        while k < self.catalogs.len()
            invariant
                k <= self.catalogs.len(),
                self@.catalogs == self.catalogs@,
                ids@.no_duplicates(),
                forall|x: i64|
                    ids@.contains(x) <==> exists|i: int|
                        0 <= i < k && category_ids(
                            catalog_categories(#[trigger] self.catalogs@[i]),
                        ).contains(x),
            decreases self.catalogs.len() - k,
        {
            let ghost outer = ids@;
            let ghost batch = catalog_categories(self.catalogs@[k as int]);
            match &self.catalogs[k].categories {
                Some(list) => {
                    let records = &list.categories;
                    let mut j: usize = 0;
                    while j < records.len()
                        invariant
                            j <= records.len(),
                            k < self.catalogs.len(),
                            records@ == batch,
                            ids@.no_duplicates(),
                            forall|x: i64|
                                #![trigger ids@.contains(x)]
                                ids@.contains(x) <==> outer.contains(x) || exists|i: int|
                                    0 <= i < j && (#[trigger] batch[i]).id == x,
                        decreases records.len() - j,
                    {
                        let ghost before = ids@;
                        let added = records[j].id;
                        proof {
                            lemma_merged(before, seq![added]);
                            assert(seq![added][0] == added);
                        }
                        crate::cwe::id_list::insert_id(&mut ids, added);
                        proof {
                            assert forall|x: i64|
                                #![trigger ids@.contains(x)]
                                ids@.contains(x) <==> outer.contains(x) || exists|i: int|
                                    0 <= i < j + 1 && (#[trigger] batch[i]).id == x by {
                                if seq![added].contains(x) {
                                    let i = choose|i: int|
                                        0 <= i < seq![added].len() && seq![added][i] == x;
                                    assert(x == added);
                                }
                                if exists|i: int| 0 <= i < j && (#[trigger] batch[i]).id == x {
                                    let i = choose|i: int|
                                        0 <= i < j && (#[trigger] batch[i]).id == x;
                                    assert(0 <= i < j + 1 && batch[i].id == x);
                                }
                                if x == added {
                                    assert(batch[j as int].id == x);
                                }
                                if exists|i: int| 0 <= i < j + 1 && (#[trigger] batch[i]).id == x {
                                    let i = choose|i: int|
                                        0 <= i < j + 1 && (#[trigger] batch[i]).id == x;
                                    if i < j {
                                        assert(before.contains(x));
                                    }
                                }
                            }
                        }
                        j += 1;
                    }
                },
                None => {},
            }
            proof {
                assert forall|x: i64|
                    ids@.contains(x) <==> exists|i: int|
                        0 <= i < k + 1 && category_ids(
                            catalog_categories(#[trigger] self.catalogs@[i]),
                        ).contains(x) by {
                    if outer.contains(x) {
                        let i = choose|i: int|
                            0 <= i < k && category_ids(
                                catalog_categories(#[trigger] self.catalogs@[i]),
                            ).contains(x);
                        assert(0 <= i < k + 1 && category_ids(
                            catalog_categories(self.catalogs@[i]),
                        ).contains(x));
                    }
                    if exists|i: int| 0 <= i < batch.len() && (#[trigger] batch[i]).id == x {
                        assert(category_ids(catalog_categories(self.catalogs@[k as int])).contains(
                            x,
                        ));
                    }
                    if exists|i: int|
                        0 <= i < k + 1 && category_ids(
                            catalog_categories(#[trigger] self.catalogs@[i]),
                        ).contains(x) {
                        let i = choose|i: int|
                            0 <= i < k + 1 && category_ids(
                                catalog_categories(#[trigger] self.catalogs@[i]),
                            ).contains(x);
                        if i < k {
                            assert(outer.contains(x));
                        } else {
                            assert(category_ids(batch).contains(x));
                        }
                    }
                }
            }
            k += 1;
        }
        proof {
            assert(ids@.to_set() =~= self@.catalog_category_ids());
            assert forall|i: int| 0 <= i < ids@.len() implies self@.categories.contains_key(
                #[trigger] ids@[i],
            ) by {
                assert(ids@.to_set().contains(ids@[i]));
            }
        }
        self.category_records(&ids)
    }

    /// The catalogs that were imported, one per catalog name.
    pub fn catalogs(&self) -> (catalogs: &Vec<WeaknessCatalog>)
        ensures
            catalogs@ == self@.catalogs,
    {
        &self.catalogs
    }
}

} // verus!
