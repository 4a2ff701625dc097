use crate::cwe::categories::Category;
use crate::cwe::weakness_catalog::WeaknessCatalog;
use crate::cwe::weaknesses::Weakness;
use std::rc::Rc;
use vstd::prelude::*;

verus! {

/// One step of a preorder walk: the depth below the start and the weakness visited.
pub struct Visit {
    pub level: nat,
    pub id: i64,
}

/// The mathematical content of a database: the merged records and the indices
/// derived from them.
pub struct DatabaseView {
    /// The merged weaknesses, by identifier.
    pub weaknesses: Map<i64, Rc<Weakness>>,
    /// For an identifier, known or not, the weaknesses that name it as a parent, in
    /// the order in which a walk takes them. An absent key stands for none.
    pub children: Map<i64, Seq<i64>>,
    /// The weaknesses without a parent, in the order in which a walk takes them.
    pub roots: Seq<i64>,
    /// The merged categories, by identifier.
    pub categories: Map<i64, Rc<Category>>,
    /// For a weakness identifier, the identifiers of the categories that apply to
    /// it, declared or inferred. Only non-empty sets are held.
    pub members: Map<i64, Set<i64>>,
    /// The catalogs that were imported, one per catalog name.
    pub catalogs: Seq<WeaknessCatalog>,
}

/// The steps of an executable trace, read as visits.
pub open spec fn trace_view(trace: Seq<(usize, i64)>) -> Seq<Visit> {
    Seq::new(trace.len(), |i: int| Visit { level: trace[i].0 as nat, id: trace[i].1 })
}

/// The weaknesses that a catalog declares, none where the list is absent.
pub open spec fn catalog_weaknesses(catalog: WeaknessCatalog) -> Seq<Rc<Weakness>> {
    match catalog.weaknesses {
        Some(w) => w.weaknesses@,
        None => Seq::empty(),
    }
}

/// The categories that a catalog declares, none where the list is absent.
pub open spec fn catalog_categories(catalog: WeaknessCatalog) -> Seq<Rc<Category>> {
    match catalog.categories {
        Some(c) => c.categories@,
        None => Seq::empty(),
    }
}

/// The weakness index after the records of `batch` were entered in order: a later
/// record replaces an earlier one with the same identifier.
pub open spec fn index_weaknesses(base: Map<i64, Rc<Weakness>>, batch: Seq<Rc<Weakness>>) -> Map<
    i64,
    Rc<Weakness>,
>
    decreases batch.len(),
{
    if batch.len() == 0 {
        base
    } else {
        index_weaknesses(base, batch.drop_last()).insert(batch.last().id, batch.last())
    }
}

/// The category table after the records of `batch` were entered in order: a later
/// record replaces an earlier one with the same identifier.
pub open spec fn index_categories(base: Map<i64, Rc<Category>>, batch: Seq<Rc<Category>>) -> Map<
    i64,
    Rc<Category>,
>
    decreases batch.len(),
{
    if batch.len() == 0 {
        base
    } else {
        index_categories(base, batch.drop_last()).insert(batch.last().id, batch.last())
    }
}

/// The list filed under `parent` after the weaknesses of `batch` were entered in
/// order: each one leaves the place it had and, where it names `parent`, takes
/// the last place.
pub open spec fn filed_after(filed: Seq<i64>, batch: Seq<Rc<Weakness>>, parent: i64) -> Seq<i64>
    decreases batch.len(),
{
    if batch.len() == 0 {
        filed
    } else {
        let before = filed_after(filed, batch.drop_last(), parent).remove_value(batch.last().id);
        if batch.last().is_child_of(parent) {
            before.push(batch.last().id)
        } else {
            before
        }
    }
}

/// The root list after the weaknesses of `batch` were entered in order: each one
/// leaves the place it had and, where it names no parent, takes the last place.
pub open spec fn roots_after(roots: Seq<i64>, batch: Seq<Rc<Weakness>>) -> Seq<i64>
    decreases batch.len(),
{
    if batch.len() == 0 {
        roots
    } else {
        let before = roots_after(roots, batch.drop_last()).remove_value(batch.last().id);
        if batch.last().is_root() {
            before.push(batch.last().id)
        } else {
            before
        }
    }
}

/// The categories of `batch` that declare weakness `id` as a member.
pub open spec fn declared_categories(batch: Seq<Rc<Category>>, id: i64) -> Set<i64> {
    Set::new(
        |c: i64|
            exists|k: int|
                0 <= k < batch.len() && (#[trigger] batch[k]).id == c && batch[k].members().contains(
                    id,
                ),
    )
}

/// The identifiers of the records in `categories`.
pub open spec fn category_ids(categories: Seq<Rc<Category>>) -> Set<i64> {
    Set::new(|c: i64| exists|k: int| 0 <= k < categories.len() && (#[trigger] categories[k]).id == c)
}

/// The catalogs after `catalog` was stored: it replaces the catalog of the same
/// name, or comes last where there is none.
pub open spec fn store_catalog(catalogs: Seq<WeaknessCatalog>, catalog: WeaknessCatalog) -> Seq<
    WeaknessCatalog,
> {
    if exists|k: int| 0 <= k < catalogs.len() && (#[trigger] catalogs[k]).name@ == catalog.name@ {
        let k = choose|k: int|
            0 <= k < catalogs.len() && (#[trigger] catalogs[k]).name@ == catalog.name@;
        catalogs.update(k, catalog)
    } else {
        catalogs.push(catalog)
    }
}

/// The membership map that holds `of(id)` for every `id`, without empty entries.
pub open spec fn members_from(of: spec_fn(i64) -> Set<i64>) -> Map<i64, Set<i64>> {
    Map::new(|id: i64| of(id) != Set::<i64>::empty(), |id: i64| of(id))
}

impl DatabaseView {
    /// The database with nothing in it.
    pub open spec fn empty() -> DatabaseView {
        DatabaseView {
            weaknesses: Map::empty(),
            children: Map::empty(),
            roots: Seq::empty(),
            categories: Map::empty(),
            members: Map::empty(),
            catalogs: Seq::empty(),
        }
    }

    /// The weaknesses filed as naming `id` as a parent, none where there is no
    /// entry.
    pub open spec fn filed_under(self, id: i64) -> Seq<i64> {
        if self.children.contains_key(id) {
            self.children[id]
        } else {
            Seq::empty()
        }
    }

    /// The direct children of weakness `id`, none for an unknown identifier.
    pub open spec fn children_of(self, id: i64) -> Seq<i64> {
        if self.weaknesses.contains_key(id) {
            self.filed_under(id)
        } else {
            Seq::empty()
        }
    }

    /// The categories that apply to `id`, none for an identifier without an entry.
    pub open spec fn categories_of(self, id: i64) -> Set<i64> {
        if self.members.contains_key(id) {
            self.members[id]
        } else {
            Set::empty()
        }
    }

    /// No category applies to `id`.
    pub open spec fn uncategorized(self, id: i64) -> bool {
        self.categories_of(id) == Set::<i64>::empty()
    }

    /// Weakness `child` is known and declares a child-of relation to `parent`.
    pub open spec fn declares_child(self, child: i64, parent: i64) -> bool {
        self.weaknesses.contains_key(child) && self.weaknesses[child].is_child_of(parent)
    }

    /// The children lists and the root list say what the weaknesses declare, each
    /// weakness once.
    pub open spec fn hierarchy_matches(self, weaknesses: Map<i64, Rc<Weakness>>) -> bool {
        &&& forall|p: i64| #[trigger] self.filed_under(p).no_duplicates()
        &&& forall|p: i64, c: i64| #[trigger]
            self.filed_under(p).contains(c) <==> weaknesses.contains_key(c)
                && weaknesses[c].is_child_of(p)
        &&& self.roots.no_duplicates()
        &&& forall|c: i64| #[trigger]
            self.roots.contains(c) <==> weaknesses.contains_key(c) && weaknesses[c].is_root()
    }

    /// The identifiers of the categories that the stored catalogs declare.
    pub open spec fn catalog_category_ids(self) -> Set<i64> {
        Set::new(
            |c: i64|
                exists|k: int|
                    0 <= k < self.catalogs.len() && category_ids(
                        catalog_categories(#[trigger] self.catalogs[k]),
                    ).contains(c),
        )
    }

    /// The part of the invariant that is about the records: every record is filed
    /// under its own identifier, every category that applies to a weakness has a
    /// record, and catalog names are unique.
    pub open spec fn records_wf(self) -> bool {
        &&& self.weaknesses.dom().finite()
        &&& forall|id: i64| #[trigger]
            self.weaknesses.contains_key(id) ==> self.weaknesses[id].id == id
        &&& forall|c: i64| #[trigger]
            self.categories.contains_key(c) ==> self.categories[c].id == c
        &&& forall|id: i64, c: i64| #[trigger]
            self.categories_of(id).contains(c) ==> self.categories.contains_key(c)
        &&& forall|id: i64| #[trigger]
            self.members.contains_key(id) ==> self.members[id] != Set::<i64>::empty()
        &&& forall|i: int, j: int|
            0 <= i < j < self.catalogs.len() ==> (#[trigger] self.catalogs[i]).name@ != (
            #[trigger] self.catalogs[j]).name@
        &&& forall|c: i64| #[trigger]
            self.catalog_category_ids().contains(c) ==> self.categories.contains_key(c)
    }

    /// The invariant of a database: the records are in order, and the hierarchy
    /// indices say what the weaknesses declare.
    pub open spec fn wf(self) -> bool {
        &&& self.records_wf()
        &&& self.hierarchy_matches(self.weaknesses)
    }

    /// What importing `catalog` into database `before` leaves: the records of the
    /// catalog are merged in, later ones over earlier ones; the hierarchy indices
    /// follow the merged weaknesses, each weakness of the catalog filed last; each
    /// declared membership is added; and the catalog is stored under its name.
    pub open spec fn follows_import(self, before: DatabaseView, catalog: WeaknessCatalog) -> bool {
        &&& self.wf()
        &&& self.weaknesses == index_weaknesses(before.weaknesses, catalog_weaknesses(catalog))
        &&& self.categories == index_categories(before.categories, catalog_categories(catalog))
        &&& forall|id: i64| #[trigger]
            self.categories_of(id) == before.categories_of(id).union(
                declared_categories(catalog_categories(catalog), id),
            )
        &&& self.catalogs == store_catalog(before.catalogs, catalog)
        &&& forall|p: i64| #[trigger]
            self.filed_under(p) == filed_after(before.filed_under(p), catalog_weaknesses(catalog), p)
        &&& self.roots == roots_after(before.roots, catalog_weaknesses(catalog))
    }

    /// What merging `categories` into the categories of `id` leaves of database
    /// `before`: the records are entered in the category table, later ones over
    /// earlier ones, and their identifiers are added to the categories of `id`.
    pub open spec fn follows_merge(
        self,
        before: DatabaseView,
        id: i64,
        categories: Seq<Rc<Category>>,
    ) -> bool {
        &&& self.weaknesses == before.weaknesses
        &&& self.children == before.children
        &&& self.roots == before.roots
        &&& self.catalogs == before.catalogs
        &&& self.categories == index_categories(before.categories, categories)
        &&& self.categories_of(id) == before.categories_of(id).union(category_ids(categories))
        &&& forall|other: i64|
            other != id ==> #[trigger] self.categories_of(other) == before.categories_of(other)
    }

    /// The same database with the membership map replaced by `of`.
    pub open spec fn with_members(self, of: spec_fn(i64) -> Set<i64>) -> DatabaseView {
        DatabaseView { members: members_from(of), ..self }
    }

    /// The preorder walk below `id`, which is visited at depth `level`. `path`
    /// holds the weaknesses from the start of the walk down to `id`; a child that
    /// is already on it is passed over, so that the walk ends on any hierarchy.
    pub open spec fn walk(self, id: i64, level: nat, path: Seq<i64>) -> Seq<Visit>
        decreases self.weaknesses.dom().difference(path.to_set()).len(), self.children_of(id).len()
            + 1,
        when self.weaknesses.dom().finite()
    {
        seq![Visit { level, id }] + self.walk_children(id, level + 1, path, 0)
    }

    /// The walks below the children of `parent` from position `from` on, one after
    /// the other, each child visited at depth `level`.
    pub open spec fn walk_children(self, parent: i64, level: nat, path: Seq<i64>, from: nat) -> Seq<
        Visit,
    >
        decreases self.weaknesses.dom().difference(path.to_set()).len(), self.children_of(
            parent,
        ).len() - from,
        when self.weaknesses.dom().finite()
    {
        let kids = self.children_of(parent);
        if from >= kids.len() {
            Seq::empty()
        } else {
            let child = kids[from as int];
            let below = if self.weaknesses.contains_key(child) && !path.contains(child) {
                proof {
                    lemma_path_grows(self.weaknesses.dom(), path, child);
                }
                self.walk(child, level, path.push(child))
            } else {
                Seq::empty()
            };
            below + self.walk_children(parent, level, path, from + 1)
        }
    }

    /// The preorder walk that starts at `id`.
    pub open spec fn walk_from(self, id: i64) -> Seq<Visit> {
        self.walk(id, 0, seq![id])
    }

    /// The preorder walk over the whole hierarchy: the walk from each root in turn,
    /// starting with root number `from`.
    pub open spec fn walk_roots(self, from: nat) -> Seq<Visit>
        decreases self.roots.len() - from,
    {
        if from >= self.roots.len() {
            Seq::empty()
        } else {
            self.walk_from(self.roots[from as int]) + self.walk_roots(from + 1)
        }
    }

    /// Each weakness of `chain` but the last has the next one as a direct child.
    pub open spec fn is_chain(self, chain: Seq<i64>) -> bool {
        forall|i: int|
            0 <= i < chain.len() - 1 ==> self.children_of(#[trigger] chain[i]).contains(
                chain[i + 1],
            )
    }

    /// A chain of child relations leads from `from` down to `to`.
    pub open spec fn reaches(self, from: i64, to: i64) -> bool {
        exists|chain: Seq<i64>| #[trigger]
            self.is_chain(chain) && chain.len() >= 2 && chain[0] == from && chain.last() == to
    }

    /// The weaknesses below `id`: all that a chain of child relations leads to
    /// from `id`, `id` itself excepted.
    pub open spec fn descendants(self, id: i64) -> Set<i64> {
        Set::new(|n: i64| n != id && self.reaches(id, n))
    }

    /// The subtree that a lookup of `id` shows: its descendants, and nothing for
    /// an unknown identifier.
    pub open spec fn subtree_of(self, id: i64) -> Set<i64> {
        if self.weaknesses.contains_key(id) {
            self.descendants(id)
        } else {
            Set::empty()
        }
    }

    /// The known weaknesses that weakness `id` names as parents.
    pub open spec fn ancestors_of(self, id: i64) -> Set<i64> {
        Set::new(|a: i64| self.weaknesses.contains_key(a) && self.declares_child(id, a))
    }

    /// Weakness `id` is `from` itself or lies below it.
    pub open spec fn inherits_from(self, id: i64, from: i64) -> bool {
        id == from || self.descendants(from).contains(id)
    }

    /// What downward saturation gives weakness `id`: every category that applies
    /// to `id` itself or to an identifier that `id` lies below.
    pub open spec fn inherited(self, id: i64) -> Set<i64> {
        Set::new(
            |c: i64|
                exists|from: i64|
                    self.inherits_from(id, from) && (#[trigger] self.categories_of(from)).contains(
                        c,
                    ),
        )
    }

    /// The database after downward saturation.
    pub open spec fn saturate_downward(self) -> DatabaseView {
        self.with_members(|id: i64| self.inherited(id))
    }

    /// How many of `kids` have no category.
    pub open spec fn uncategorized_count(self, kids: Seq<i64>) -> nat
        decreases kids.len(),
    {
        if kids.len() == 0 {
            0
        } else {
            self.uncategorized_count(kids.drop_last()) + if self.uncategorized(kids.last()) {
                1nat
            } else {
                0nat
            }
        }
    }

    /// The union of the categories of `kids`.
    pub open spec fn categories_among(self, kids: Seq<i64>) -> Set<i64> {
        Set::new(
            |c: i64|
                exists|j: int|
                    0 <= j < kids.len() && self.categories_of(#[trigger] kids[j]).contains(c),
        )
    }

    /// In an upward round weakness `id` takes over the categories of its
    /// children: it is known, has no category, and at most one of its direct
    /// children has none.
    pub open spec fn adopts(self, id: i64) -> bool {
        &&& self.weaknesses.contains_key(id)
        &&& self.uncategorized(id)
        &&& self.uncategorized_count(self.children_of(id)) <= 1
    }

    /// The categories of `id` after one upward round.
    pub open spec fn round_categories(self, id: i64) -> Set<i64> {
        if self.adopts(id) {
            self.categories_among(self.children_of(id))
        } else {
            self.categories_of(id)
        }
    }

    /// The database after one upward round, every weakness judged on the state
    /// before the round.
    pub open spec fn upward_round(self) -> DatabaseView {
        self.with_members(|id: i64| self.round_categories(id))
    }

    /// An upward round would change nothing.
    pub open spec fn upward_stable(self) -> bool {
        forall|id: i64| #[trigger] self.round_categories(id) == self.categories_of(id)
    }

    /// The known weaknesses without a category.
    pub open spec fn uncategorized_weaknesses(self) -> Set<i64> {
        self.weaknesses.dom().filter(|id: i64| self.uncategorized(id))
    }

    /// The database after upward rounds were repeated until one changed nothing.
    pub open spec fn saturate_upward(self) -> DatabaseView
        decreases self.uncategorized_weaknesses().len(),
        when self.wf()
    {
        if self.upward_stable() {
            self
        } else {
            proof {
                self.lemma_round_progress();
            }
            self.upward_round().saturate_upward()
        }
    }

    /// Those of `targets` that are known weaknesses, each once, in the order of
    /// their first occurrence.
    pub open spec fn known_among(self, targets: Seq<i64>) -> Seq<i64>
        decreases targets.len(),
    {
        if targets.len() == 0 {
            Seq::empty()
        } else {
            let before = self.known_among(targets.drop_last());
            let target = targets.last();
            if self.weaknesses.contains_key(target) && !before.contains(target) {
                before.push(target)
            } else {
                before
            }
        }
    }

    /// The known weaknesses that weakness `id` names as parents, each once, in the
    /// order in which it names them; none for an unknown identifier.
    pub open spec fn direct_ancestors(self, id: i64) -> Seq<i64> {
        if self.weaknesses.contains_key(id) {
            self.known_among(self.weaknesses[id].parents())
        } else {
            Seq::empty()
        }
    }

    /// `known_among(targets)` holds the known weaknesses among `targets`, each once.
    pub proof fn lemma_known_among(self, targets: Seq<i64>)
        ensures
            self.known_among(targets).no_duplicates(),
            forall|a: i64|
                #![trigger self.known_among(targets).contains(a)]
                #![trigger targets.contains(a)]
                self.known_among(targets).contains(a) <==> self.weaknesses.contains_key(a)
                    && targets.contains(a),
        decreases targets.len(),
    {
        if targets.len() > 0 {
            let front = targets.drop_last();
            let before = self.known_among(front);
            let target = targets.last();
            self.lemma_known_among(front);
            assert(targets[targets.len() - 1] == target);
            let result = self.known_among(targets);
            assert forall|a: i64|
                result.contains(a) <==> self.weaknesses.contains_key(a) && targets.contains(a) by {
                assert(before.contains(a) <==> self.weaknesses.contains_key(a) && front.contains(a));
                assert(targets.contains(a) <==> front.contains(a) || a == target) by {
                    if targets.contains(a) {
                        let i = choose|i: int| 0 <= i < targets.len() && targets[i] == a;
                        if i < front.len() {
                            assert(front[i] == a);
                        }
                    }
                    if front.contains(a) {
                        let i = choose|i: int| 0 <= i < front.len() && front[i] == a;
                        assert(targets[i] == a);
                    }
                }
                if self.weaknesses.contains_key(target) && !before.contains(target) {
                    assert(result == before.push(target));
                    assert(result.contains(a) <==> before.contains(a) || a == target) by {
                        if before.contains(a) {
                            let i = choose|i: int| 0 <= i < before.len() && before[i] == a;
                            assert(result[i] == a);
                        }
                        if a == target {
                            assert(result[before.len() as int] == a);
                        }
                        if result.contains(a) {
                            let i = choose|i: int| 0 <= i < result.len() && result[i] == a;
                            if i < before.len() {
                                assert(before[i] == a);
                            }
                        }
                    }
                } else {
                    assert(result == before);
                }
            }
        }
    }

    /// The direct ancestors of a weakness are the members of `ancestors_of`, each
    /// once.
    pub proof fn lemma_direct_ancestors(self, id: i64)
        ensures
            self.direct_ancestors(id).no_duplicates(),
            forall|a: i64|
                #![trigger self.direct_ancestors(id).contains(a)]
                #![trigger self.ancestors_of(id).contains(a)]
                self.direct_ancestors(id).contains(a) <==> self.ancestors_of(id).contains(a),
    {
        if self.weaknesses.contains_key(id) {
            let record = self.weaknesses[id];
            self.lemma_known_among(record.parents());
            record.lemma_parents();
            assert forall|a: i64|
                self.direct_ancestors(id).contains(a) <==> self.ancestors_of(id).contains(a) by {
                assert(record.parents().contains(a) <==> record.is_child_of(a));
            }
        }
    }

    /// A walk starts with the weakness it was asked for, and goes on only to
    /// known weaknesses at greater depth.
    pub proof fn lemma_walk_shape(self, id: i64, level: nat, path: Seq<i64>)
        requires
            self.weaknesses.dom().finite(),
        ensures
            self.walk(id, level, path).len() >= 1,
            self.walk(id, level, path)[0] == (Visit { level, id }),
            forall|k: int|
                0 < k < self.walk(id, level, path).len() ==> self.weaknesses.contains_key(
                    (#[trigger] self.walk(id, level, path)[k]).id,
                ) && self.walk(id, level, path)[k].level > level,
        decreases self.weaknesses.dom().difference(path.to_set()).len(), self.children_of(id).len()
            + 1,
    {
        self.lemma_walk_children_shape(id, level + 1, path, 0);
        let below = self.walk_children(id, level + 1, path, 0);
        let walk = self.walk(id, level, path);
        assert(walk == seq![Visit { level, id }] + below);
        assert forall|k: int| 0 < k < walk.len() implies self.weaknesses.contains_key(
            (#[trigger] walk[k]).id,
        ) && walk[k].level > level by {
            assert(walk[k] == below[k - 1]);
        }
    }

    /// The walks below the children of a weakness visit known weaknesses only, at
    /// the depth of the children or deeper.
    pub proof fn lemma_walk_children_shape(self, parent: i64, level: nat, path: Seq<i64>, from: nat)
        requires
            self.weaknesses.dom().finite(),
        ensures
            forall|k: int|
                0 <= k < self.walk_children(parent, level, path, from).len()
                    ==> self.weaknesses.contains_key(
                    (#[trigger] self.walk_children(parent, level, path, from)[k]).id,
                ) && self.walk_children(parent, level, path, from)[k].level >= level,
        decreases self.weaknesses.dom().difference(path.to_set()).len(), self.children_of(
            parent,
        ).len() - from,
    {
        let kids = self.children_of(parent);
        if from < kids.len() {
            let child = kids[from as int];
            let rest = self.walk_children(parent, level, path, from + 1);
            self.lemma_walk_children_shape(parent, level, path, from + 1);
            let below = if self.weaknesses.contains_key(child) && !path.contains(child) {
                self.walk(child, level, path.push(child))
            } else {
                Seq::empty()
            };
            if self.weaknesses.contains_key(child) && !path.contains(child) {
                lemma_path_grows(self.weaknesses.dom(), path, child);
                self.lemma_walk_shape(child, level, path.push(child));
            }
            let all = self.walk_children(parent, level, path, from);
            assert(all == below + rest);
            assert forall|k: int| 0 <= k < all.len() implies self.weaknesses.contains_key(
                (#[trigger] all[k]).id,
            ) && all[k].level >= level by {
                if k < below.len() {
                    assert(all[k] == below[k]);
                } else {
                    assert(all[k] == rest[k - below.len()]);
                }
            }
        }
    }

    /// Weakness `id` inherits from `from` exactly where the walk from `from`
    /// visits it.
    pub proof fn lemma_inherits_from(self, id: i64, from: i64)
        requires
            self.wf(),
        ensures
            self.inherits_from(id, from) <==> exists|k: int|
                0 <= k < self.walk_from(from).len() && (#[trigger] self.walk_from(from)[k]).id
                    == id,
    {
        self.lemma_walk_shape(from, 0, seq![from]);
        crate::cwe::reach::lemma_walk_visits_descendants(self, from);
        let walk = self.walk_from(from);
        if self.inherits_from(id, from) {
            if id == from {
                assert(walk[0].id == id);
            } else {
                assert(self.descendants(from).contains(id));
                let k = choose|k: int| 0 < k < walk.len() && (#[trigger] walk[k]).id == id;
                assert(0 <= k < walk.len() && walk[k].id == id);
            }
        }
        if exists|k: int| 0 <= k < walk.len() && (#[trigger] walk[k]).id == id {
            let k = choose|k: int| 0 <= k < walk.len() && (#[trigger] walk[k]).id == id;
            if k > 0 {
                assert(self.descendants(from).contains(id));
            }
        }
    }

    /// Downward saturation never takes a category away.
    pub proof fn lemma_inherited_keeps(self, id: i64)
        ensures
            self.categories_of(id).subset_of(self.inherited(id)),
    {
        assert forall|c: i64| self.categories_of(id).contains(c) implies self.inherited(
            id,
        ).contains(c) by {
            assert(self.inherits_from(id, id));
        }
    }

    /// Downward saturation leaves a valid database valid.
    pub proof fn lemma_downward_wf(self)
        requires
            self.wf(),
        ensures
            self.saturate_downward().wf(),
    {
        let after = self.saturate_downward();
        self.lemma_with_members(|id: i64| self.inherited(id));
        assert forall|id: i64, c: i64| #[trigger]
            after.categories_of(id).contains(c) implies after.categories.contains_key(c) by {
            assert(after.categories_of(id) == self.inherited(id));
            let from = choose|from: i64|
                self.inherits_from(id, from) && (#[trigger] self.categories_of(from)).contains(c);
            assert(self.categories_of(from).contains(c));
        }
        assert forall|p: i64| #[trigger] after.filed_under(p) == self.filed_under(p) by {}
        assert(after.catalog_category_ids() == self.catalog_category_ids());
    }

    /// The categories of `id` in `with_members(of)` are `of(id)`.
    pub proof fn lemma_with_members(self, of: spec_fn(i64) -> Set<i64>)
        ensures
            forall|id: i64| #[trigger] self.with_members(of).categories_of(id) == of(id),
            forall|id: i64| #[trigger]
                self.with_members(of).members.contains_key(id) ==> self.with_members(of).members[id]
                    != Set::<i64>::empty(),
    {
    }

    /// A database whose membership map holds no empty entry is the one that
    /// `with_members` builds from its own categories.
    pub proof fn lemma_members_canonical(self, other: DatabaseView, of: spec_fn(i64) -> Set<i64>)
        requires
            forall|id: i64| #[trigger]
                other.members.contains_key(id) ==> other.members[id] != Set::<i64>::empty(),
            forall|id: i64| #[trigger] other.categories_of(id) == of(id),
            other.weaknesses == self.weaknesses,
            other.children == self.children,
            other.roots == self.roots,
            other.categories == self.categories,
            other.catalogs == self.catalogs,
        ensures
            other == self.with_members(of),
    {
        let target = self.with_members(of);
        assert forall|id: i64| other.members.contains_key(id) <==> target.members.contains_key(
            id,
        ) by {
            assert(other.categories_of(id) == of(id));
        }
        assert forall|id: i64| other.members.contains_key(id) implies other.members[id]
            == target.members[id] by {
            assert(other.categories_of(id) == of(id));
        }
        assert(other.members =~= target.members);
    }

    /// An upward round never takes a category away.
    pub proof fn lemma_round_keeps(self, id: i64)
        ensures
            self.categories_of(id).subset_of(self.round_categories(id)),
    {
    }

    /// An upward round leaves a valid database valid.
    pub proof fn lemma_round_wf(self)
        requires
            self.wf(),
        ensures
            self.upward_round().wf(),
    {
        let after = self.upward_round();
        self.lemma_with_members(|id: i64| self.round_categories(id));
        assert forall|id: i64, c: i64| #[trigger]
            after.categories_of(id).contains(c) implies after.categories.contains_key(c) by {
            assert(after.categories_of(id) == self.round_categories(id));
            if self.adopts(id) {
                let kids = self.children_of(id);
                let j = choose|j: int|
                    0 <= j < kids.len() && self.categories_of(#[trigger] kids[j]).contains(c);
                assert(self.categories_of(kids[j]).contains(c));
            } else {
                assert(self.categories_of(id).contains(c));
            }
        }
        assert forall|p: i64| #[trigger] after.filed_under(p) == self.filed_under(p) by {}
        assert(after.catalog_category_ids() == self.catalog_category_ids());
    }

    /// A round that changes something leaves fewer weaknesses without a category.
    pub proof fn lemma_round_progress(self)
        requires
            self.wf(),
            !self.upward_stable(),
        ensures
            self.upward_round().uncategorized_weaknesses().len()
                < self.uncategorized_weaknesses().len(),
    {
        let after = self.upward_round();
        self.lemma_with_members(|id: i64| self.round_categories(id));
        let before_set = self.uncategorized_weaknesses();
        let after_set = after.uncategorized_weaknesses();
        let moved = choose|id: i64| #[trigger]
            self.round_categories(id) != self.categories_of(id);
        assert(self.adopts(moved));
        assert(after.categories_of(moved) == self.round_categories(moved));
        assert(before_set.contains(moved));
        assert(!after_set.contains(moved));
        assert forall|id: i64| after_set.contains(id) implies before_set.contains(id) by {
            assert(after.categories_of(id) == self.round_categories(id));
            self.lemma_round_keeps(id);
            assert(self.categories_of(id) =~= Set::<i64>::empty());
        }
        assert(after_set.subset_of(before_set.remove(moved)));
        vstd::set_lib::lemma_len_subset(after_set, before_set.remove(moved));
    }
}

/// The merged category table knows every category of the batch and every one it
/// knew before, each filed under its own identifier where that held before.
pub proof fn lemma_index_categories(base: Map<i64, Rc<Category>>, batch: Seq<Rc<Category>>)
    ensures
        forall|c: i64| base.contains_key(c) ==> index_categories(base, batch).contains_key(c),
        forall|k: int|
            0 <= k < batch.len() ==> index_categories(base, batch).contains_key(
                (#[trigger] batch[k]).id,
            ),
        forall|c: i64|
            index_categories(base, batch).contains_key(c) ==> base.contains_key(c)
                || category_ids(batch).contains(c),
        (forall|c: i64| #[trigger] base.contains_key(c) ==> base[c].id == c) ==> forall|c: i64|
            #[trigger]
            index_categories(base, batch).contains_key(c) ==> index_categories(base, batch)[c].id
                == c,
    decreases batch.len(),
{
    if batch.len() > 0 {
        let front = batch.drop_last();
        lemma_index_categories(base, front);
        assert forall|k: int| 0 <= k < batch.len() implies index_categories(
            base,
            batch,
        ).contains_key((#[trigger] batch[k]).id) by {
            if k < front.len() {
                assert(front[k] == batch[k]);
            }
        }
        assert forall|c: i64| index_categories(base, batch).contains_key(c) implies base.contains_key(
            c,
        ) || category_ids(batch).contains(c) by {
            if c == batch.last().id {
                assert(batch[batch.len() - 1].id == c);
            } else if !base.contains_key(c) {
                assert(category_ids(front).contains(c));
                let k = choose|k: int| 0 <= k < front.len() && (#[trigger] front[k]).id == c;
                assert(batch[k].id == c);
            }
        }
        if forall|c: i64| #[trigger] base.contains_key(c) ==> base[c].id == c {
            assert forall|c: i64| #[trigger]
                index_categories(base, batch).contains_key(c) implies index_categories(
                base,
                batch,
            )[c].id == c by {
                if c != batch.last().id {
                    assert(index_categories(base, front).contains_key(c));
                }
            }
        }
    }
}

/// Taking a known weakness that is not on the path onto it leaves fewer
/// weaknesses off the path.
pub proof fn lemma_path_grows(known: Set<i64>, path: Seq<i64>, child: i64)
    requires
        known.finite(),
        known.contains(child),
        !path.contains(child),
    ensures
        known.difference(path.push(child).to_set()).len() < known.difference(path.to_set()).len(),
{
    let off = known.difference(path.to_set());
    assert(off.contains(child));
    assert(known.difference(path.push(child).to_set()) =~= off.remove(child)) by {
        assert forall|x: i64| path.push(child).to_set().contains(x) <==> (path.to_set().contains(x)
            || x == child) by {
            if path.push(child).to_set().contains(x) {
                let i = choose|i: int| 0 <= i < path.push(child).len() && path.push(child)[i] == x;
                if i < path.len() {
                    assert(path[i] == x);
                }
            }
            if path.to_set().contains(x) {
                let i = choose|i: int| 0 <= i < path.len() && path[i] == x;
                assert(path.push(child)[i] == x);
            }
            if x == child {
                assert(path.push(child)[path.len() as int] == x);
            }
        }
    }
}

} // verus!
