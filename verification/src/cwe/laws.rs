use crate::cwe::model::{catalog_weaknesses, index_weaknesses, DatabaseView};
use crate::cwe::weakness_catalog::WeaknessCatalog;
use crate::cwe::weaknesses::Weakness;
use std::rc::Rc;
use vstd::prelude::*;

verus! {

/// One of the two inference passes.
pub enum InferencePass {
    FromAncestors,
    FromDescendants,
}

/// The last record of `batch` with identifier `id`, if there is one.
pub open spec fn latest(batch: Seq<Rc<Weakness>>, id: i64) -> Option<Rc<Weakness>>
    decreases batch.len(),
{
    if batch.len() == 0 {
        None
    } else if batch.last().id == id {
        Some(batch.last())
    } else {
        latest(batch.drop_last(), id)
    }
}

/// The database after the inference passes `passes` were run in order.
pub open spec fn after_passes(db: DatabaseView, passes: Seq<InferencePass>) -> DatabaseView
    decreases passes.len(),
{
    if passes.len() == 0 {
        db
    } else {
        let before = after_passes(db, passes.drop_last());
        match passes.last() {
            InferencePass::FromAncestors => before.saturate_downward(),
            InferencePass::FromDescendants => before.saturate_upward(),
        }
    }
}

/// The merged weakness index holds, for each identifier, the last record of the
/// batch with that identifier, and what it held before where the batch has none.
pub proof fn lemma_index_weaknesses_latest(base: Map<i64, Rc<Weakness>>, batch: Seq<Rc<Weakness>>)
    ensures
        forall|id: i64| #[trigger]
            index_weaknesses(base, batch).contains_key(id) <==> base.contains_key(id) || latest(
                batch,
                id,
            ) is Some,
        forall|id: i64| #[trigger]
            index_weaknesses(base, batch).contains_key(id) ==> index_weaknesses(base, batch)[id]
                == match latest(batch, id) {
                Some(record) => record,
                None => base[id],
            },
    decreases batch.len(),
{
    if batch.len() > 0 {
        lemma_index_weaknesses_latest(base, batch.drop_last());
        let front = index_weaknesses(base, batch.drop_last());
        assert forall|id: i64| #[trigger]
            index_weaknesses(base, batch).contains_key(id) <==> base.contains_key(id) || latest(
                batch,
                id,
            ) is Some by {
            assert(front.contains_key(id) <==> base.contains_key(id) || latest(
                batch.drop_last(),
                id,
            ) is Some);
        }
        assert forall|id: i64| #[trigger]
            index_weaknesses(base, batch).contains_key(id) implies index_weaknesses(base, batch)[id]
            == match latest(batch, id) {
            Some(record) => record,
            None => base[id],
        } by {
            if batch.last().id != id {
                assert(front.contains_key(id));
            }
        }
    }
}

/// A second import of the same catalog leaves the weaknesses
/// as the first import left them, and with them the children of every weakness
/// and the roots.
pub proof fn lemma_import_idempotent(
    start: DatabaseView,
    once: DatabaseView,
    twice: DatabaseView,
    catalog: WeaknessCatalog,
)
    requires
        once.follows_import(start, catalog),
        twice.follows_import(once, catalog),
    ensures
        twice.weaknesses == once.weaknesses,
        forall|id: i64| #[trigger] twice.children_of(id).to_set() == once.children_of(id).to_set(),
        twice.roots.to_set() == once.roots.to_set(),
{
    let batch = catalog_weaknesses(catalog);
    lemma_index_weaknesses_latest(start.weaknesses, batch);
    lemma_index_weaknesses_latest(once.weaknesses, batch);
    assert(twice.weaknesses =~= once.weaknesses) by {
        assert forall|id: i64| twice.weaknesses.contains_key(id) <==> once.weaknesses.contains_key(
            id,
        ) by {
            assert(index_weaknesses(once.weaknesses, batch).contains_key(id)
                <==> once.weaknesses.contains_key(id) || latest(batch, id) is Some);
            assert(index_weaknesses(start.weaknesses, batch).contains_key(id)
                <==> start.weaknesses.contains_key(id) || latest(batch, id) is Some);
        }
        assert forall|id: i64| twice.weaknesses.contains_key(id) implies twice.weaknesses[id]
            == once.weaknesses[id] by {
            assert(index_weaknesses(once.weaknesses, batch).contains_key(id));
            assert(index_weaknesses(start.weaknesses, batch).contains_key(id));
        }
    }
    assert forall|id: i64| #[trigger]
        twice.children_of(id).to_set() == once.children_of(id).to_set() by {
        assert forall|c: i64| twice.children_of(id).to_set().contains(c) <==> once.children_of(
            id,
        ).to_set().contains(c) by {
            assert(twice.filed_under(id).contains(c) <==> once.filed_under(id).contains(c));
        }
        assert(twice.children_of(id).to_set() =~= once.children_of(id).to_set());
    }
    assert(twice.roots.to_set() =~= once.roots.to_set()) by {
        assert forall|c: i64| twice.roots.to_set().contains(c) <==> once.roots.to_set().contains(
            c,
        ) by {
            assert(twice.roots.contains(c) <==> once.roots.contains(c));
        }
    }
}

/// A known weakness is among the roots exactly where it
/// declares no child-of relation, and is among the children of every known
/// weakness that it names as a parent.
pub proof fn lemma_root_child_partition(db: DatabaseView, weakness: i64, parent: i64)
    requires
        db.wf(),
        db.weaknesses.contains_key(weakness),
    ensures
        db.roots.contains(weakness) <==> db.weaknesses[weakness].is_root(),
        db.weaknesses.contains_key(parent) && db.weaknesses[weakness].is_child_of(parent)
            ==> db.children_of(parent).contains(weakness),
{
    assert(db.roots.contains(weakness) <==> db.weaknesses.contains_key(weakness)
        && db.weaknesses[weakness].is_root());
    assert(db.filed_under(parent).contains(weakness) <==> db.weaknesses.contains_key(weakness)
        && db.weaknesses[weakness].is_child_of(parent));
}

/// Upward saturation ends in a valid database in which a further round changes
/// nothing, and takes no category away on the way.
pub proof fn lemma_saturate_upward(db: DatabaseView)
    requires
        db.wf(),
    ensures
        db.saturate_upward().wf(),
        db.saturate_upward().upward_stable(),
        forall|id: i64| #[trigger]
            db.categories_of(id).subset_of(db.saturate_upward().categories_of(id)),
    decreases db.uncategorized_weaknesses().len(),
{
    if !db.upward_stable() {
        let next = db.upward_round();
        db.lemma_round_wf();
        db.lemma_round_progress();
        lemma_saturate_upward(next);
        db.lemma_with_members(|id: i64| db.round_categories(id));
        assert forall|id: i64| #[trigger]
            db.categories_of(id).subset_of(db.saturate_upward().categories_of(id)) by {
            db.lemma_round_keeps(id);
            assert(next.categories_of(id) == db.round_categories(id));
            assert(next.categories_of(id).subset_of(next.saturate_upward().categories_of(id)));
        }
    }
}

/// Whatever inference passes are run, in whatever
/// order, every identifier keeps the categories it had.
pub proof fn lemma_inference_monotone(db: DatabaseView, passes: Seq<InferencePass>, id: i64)
    requires
        db.wf(),
    ensures
        after_passes(db, passes).wf(),
        db.categories_of(id).subset_of(after_passes(db, passes).categories_of(id)),
    decreases passes.len(),
{
    if passes.len() > 0 {
        let before = after_passes(db, passes.drop_last());
        lemma_inference_monotone(db, passes.drop_last(), id);
        match passes.last() {
            InferencePass::FromAncestors => {
                before.lemma_downward_wf();
                before.lemma_inherited_keeps(id);
                before.lemma_with_members(|x: i64| before.inherited(x));
                assert(before.saturate_downward().categories_of(id) == before.inherited(id));
            },
            InferencePass::FromDescendants => {
                lemma_saturate_upward(before);
                assert(before.categories_of(id).subset_of(
                    before.saturate_upward().categories_of(id),
                ));
            },
        }
    }
}

/// Once upward saturation has run, neither a further round nor a
/// further run changes the database.
pub proof fn lemma_upward_fixed_point(db: DatabaseView)
    requires
        db.wf(),
    ensures
        db.saturate_upward().upward_round() == db.saturate_upward(),
        db.saturate_upward().saturate_upward() == db.saturate_upward(),
{
    let settled = db.saturate_upward();
    lemma_saturate_upward(db);
    let of = |id: i64| settled.round_categories(id);
    assert forall|id: i64| #[trigger] settled.categories_of(id) == of(id) by {
        assert(settled.round_categories(id) == settled.categories_of(id));
    }
    settled.lemma_members_canonical(settled, of);
}

/// A weakness lies in the subtree of each of its
/// direct ancestors, itself excepted.
pub proof fn lemma_ancestor_subtree(db: DatabaseView, weakness: i64, ancestor: i64)
    requires
        db.wf(),
        db.ancestors_of(weakness).contains(ancestor),
        ancestor != weakness,
    ensures
        db.subtree_of(ancestor).contains(weakness),
{
    assert(db.filed_under(ancestor).contains(weakness));
    let chain = seq![ancestor, weakness];
    assert(db.is_chain(chain)) by {
        assert forall|i: int| 0 <= i < chain.len() - 1 implies db.children_of(
            #[trigger] chain[i],
        ).contains(chain[i + 1]) by {
            assert(chain[0] == ancestor && chain[1] == weakness);
        }
    }
    assert(chain[0] == ancestor && chain.last() == weakness);
    assert(db.reaches(ancestor, weakness));
}

/// For an identifier that is no known weakness every lookup has an
/// answer, and the answer is empty; so is the set of its categories where no
/// category names it.
pub proof fn lemma_unknown_lookups(db: DatabaseView, id: i64)
    requires
        db.wf(),
        !db.weaknesses.contains_key(id),
    ensures
        db.weaknesses.get(id) is None,
        db.children_of(id) == Seq::<i64>::empty(),
        db.direct_ancestors(id) == Seq::<i64>::empty(),
        db.ancestors_of(id) == Set::<i64>::empty(),
        db.subtree_of(id) == Set::<i64>::empty(),
        !db.members.contains_key(id) ==> db.categories_of(id) == Set::<i64>::empty(),
{
    assert(db.ancestors_of(id) =~= Set::<i64>::empty());
}

} // verus!
