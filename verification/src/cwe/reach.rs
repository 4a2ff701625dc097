use crate::cwe::model::{lemma_path_grows, DatabaseView, Visit};
use vstd::prelude::*;

verus! {

/// A chain stays a chain when a weakness that has its first link as a child is
/// put before it.
pub proof fn lemma_chain_prepend(db: DatabaseView, parent: i64, chain: Seq<i64>)
    requires
        db.is_chain(chain),
        chain.len() >= 1,
        db.children_of(parent).contains(chain[0]),
    ensures
        db.is_chain(seq![parent] + chain),
{
    let longer = seq![parent] + chain;
    assert forall|i: int| 0 <= i < longer.len() - 1 implies db.children_of(
        #[trigger] longer[i],
    ).contains(longer[i + 1]) by {
        if i == 0 {
            assert(longer[1] == chain[0]);
        } else {
            assert(longer[i] == chain[i - 1]);
            assert(longer[i + 1] == chain[i]);
            assert(db.children_of(chain[i - 1]).contains(chain[i - 1 + 1]));
        }
    }
}

/// What lies behind the first link of a chain is a chain.
pub proof fn lemma_chain_rest(db: DatabaseView, chain: Seq<i64>)
    requires
        db.is_chain(chain),
        chain.len() >= 1,
    ensures
        db.is_chain(chain.drop_first()),
{
    let rest = chain.drop_first();
    assert forall|i: int| 0 <= i < rest.len() - 1 implies db.children_of(
        #[trigger] rest[i],
    ).contains(rest[i + 1]) by {
        assert(rest[i] == chain[i + 1]);
        assert(rest[i + 1] == chain[i + 2]);
        assert(db.children_of(chain[i + 1]).contains(chain[i + 1 + 1]));
    }
}

/// Between the ends of any chain there is a chain that passes no weakness twice,
/// made of weaknesses of the first.
pub proof fn lemma_simple_chain(db: DatabaseView, chain: Seq<i64>) -> (simple: Seq<i64>)
    requires
        db.is_chain(chain),
        chain.len() >= 1,
    ensures
        db.is_chain(simple),
        simple.no_duplicates(),
        simple.len() >= 1,
        simple[0] == chain[0],
        simple.last() == chain.last(),
    decreases chain.len(),
{
    if chain.no_duplicates() {
        chain
    } else {
        let (i, j) = choose|i: int, j: int|
            0 <= i < chain.len() && 0 <= j < chain.len() && i != j && chain[i] == chain[j];
        let (lo, hi) = if i < j {
            (i, j)
        } else {
            (j, i)
        };
        let head = chain.take(lo + 1);
        let tail = chain.skip(hi + 1);
        let shorter = head + tail;
        assert forall|k: int| 0 <= k < shorter.len() - 1 implies db.children_of(
            #[trigger] shorter[k],
        ).contains(shorter[k + 1]) by {
            if k < lo {
                assert(shorter[k] == chain[k]);
                assert(shorter[k + 1] == chain[k + 1]);
                assert(db.children_of(chain[k]).contains(chain[k + 1]));
            } else if k == lo {
                assert(shorter[k] == chain[lo]);
                assert(shorter[k + 1] == chain[hi + 1]);
                assert(db.children_of(chain[hi]).contains(chain[hi + 1]));
            } else {
                let at = k - (lo + 1) + (hi + 1);
                assert(shorter[k] == chain[at]);
                assert(shorter[k + 1] == chain[at + 1]);
                assert(db.children_of(chain[at]).contains(chain[at + 1]));
            }
        }
        assert(shorter[0] == chain[0]);
        assert(shorter.last() == chain.last()) by {
            if hi == chain.len() - 1 {
                assert(shorter.last() == chain[lo]);
            } else {
                assert(shorter.last() == tail[tail.len() - 1]);
            }
        }
        lemma_simple_chain(db, shorter)
    }
}

/// The walks below the children of `parent` hold the whole walk below each child
/// from position `from` on that is known and not on the path.
pub proof fn lemma_walk_children_includes(
    db: DatabaseView,
    parent: i64,
    level: nat,
    path: Seq<i64>,
    from: nat,
    at: int,
    step: int,
)
    requires
        db.weaknesses.dom().finite(),
        from <= at < db.children_of(parent).len(),
        db.weaknesses.contains_key(db.children_of(parent)[at]),
        !path.contains(db.children_of(parent)[at]),
        0 <= step < db.walk(
            db.children_of(parent)[at],
            level,
            path.push(db.children_of(parent)[at]),
        ).len(),
    ensures
        exists|k: int|
            0 <= k < db.walk_children(parent, level, path, from).len() && #[trigger] db.walk_children(
                parent,
                level,
                path,
                from,
            )[k] == db.walk(db.children_of(parent)[at], level, path.push(db.children_of(parent)[at]))[step],
    decreases at - from,
{
    let kids = db.children_of(parent);
    let child = kids[from as int];
    let all = db.walk_children(parent, level, path, from);
    let rest = db.walk_children(parent, level, path, from + 1);
    let below = if db.weaknesses.contains_key(child) && !path.contains(child) {
        db.walk(child, level, path.push(child))
    } else {
        Seq::empty()
    };
    assert(all == below + rest);
    let wanted = db.walk(kids[at], level, path.push(kids[at]))[step];
    if at == from {
        assert(all[step] == below[step]);
    } else {
        lemma_walk_children_includes(db, parent, level, path, from + 1, at, step);
        let k = choose|k: int| 0 <= k < rest.len() && #[trigger] rest[k] == wanted;
        assert(all[below.len() + k] == rest[k]);
    }
}

/// What a walk visits after its start is reached from the start by a chain, and
/// is not on the path.
pub proof fn lemma_walk_sound(db: DatabaseView, id: i64, level: nat, path: Seq<i64>, step: int)
    requires
        db.weaknesses.dom().finite(),
        0 < step < db.walk(id, level, path).len(),
    ensures
        db.reaches(id, db.walk(id, level, path)[step].id),
        !path.contains(db.walk(id, level, path)[step].id),
    decreases db.weaknesses.dom().difference(path.to_set()).len(), db.children_of(id).len() + 1,
{
    let below = db.walk_children(id, level + 1, path, 0);
    let walk = db.walk(id, level, path);
    assert(walk == seq![Visit { level, id }] + below);
    assert(walk[step] == below[step - 1]);
    lemma_walk_children_sound(db, id, level + 1, path, 0, step - 1);
}

/// What the walks below the children of `parent` visit is reached from `parent`
/// by a chain, and is not on the path.
pub proof fn lemma_walk_children_sound(
    db: DatabaseView,
    parent: i64,
    level: nat,
    path: Seq<i64>,
    from: nat,
    step: int,
)
    requires
        db.weaknesses.dom().finite(),
        0 <= step < db.walk_children(parent, level, path, from).len(),
    ensures
        db.reaches(parent, db.walk_children(parent, level, path, from)[step].id),
        !path.contains(db.walk_children(parent, level, path, from)[step].id),
    decreases db.weaknesses.dom().difference(path.to_set()).len(), db.children_of(parent).len()
        - from,
{
    let kids = db.children_of(parent);
    let child = kids[from as int];
    let all = db.walk_children(parent, level, path, from);
    let rest = db.walk_children(parent, level, path, from + 1);
    let below = if db.weaknesses.contains_key(child) && !path.contains(child) {
        db.walk(child, level, path.push(child))
    } else {
        Seq::empty()
    };
    assert(all == below + rest);
    if step < below.len() {
        assert(all[step] == below[step]);
        lemma_path_grows(db.weaknesses.dom(), path, child);
        db.lemma_walk_shape(child, level, path.push(child));
        let longer = path.push(child);
        if step == 0 {
            let chain = seq![parent, child];
            assert(db.is_chain(chain)) by {
                assert forall|i: int| 0 <= i < chain.len() - 1 implies db.children_of(
                    #[trigger] chain[i],
                ).contains(chain[i + 1]) by {
                    assert(chain[1] == child);
                }
            }
            assert(chain[0] == parent && chain.last() == child);
        } else {
            lemma_walk_sound(db, child, level, longer, step);
            let seen = below[step].id;
            let chain = choose|chain: Seq<i64>| #[trigger]
                db.is_chain(chain) && chain.len() >= 2 && chain[0] == child && chain.last() == seen;
            lemma_chain_prepend(db, parent, chain);
            let whole = seq![parent] + chain;
            assert(whole[0] == parent && whole.last() == seen);
            assert(!path.contains(seen)) by {
                if path.contains(seen) {
                    let i = choose|i: int| 0 <= i < path.len() && path[i] == seen;
                    assert(longer[i] == seen);
                }
            }
        }
    } else {
        assert(all[step] == rest[step - below.len()]);
        lemma_walk_children_sound(db, parent, level, path, from + 1, step - below.len());
    }
}

/// A walk visits the end of every chain that starts at its start, passes no
/// weakness twice and does not come back to the path.
pub proof fn lemma_walk_complete(
    db: DatabaseView,
    id: i64,
    level: nat,
    path: Seq<i64>,
    chain: Seq<i64>,
)
    requires
        db.wf(),
        db.is_chain(chain),
        chain.no_duplicates(),
        chain.len() >= 2,
        chain[0] == id,
        forall|i: int| 0 < i < chain.len() ==> !path.contains(#[trigger] chain[i]),
    ensures
        exists|k: int|
            0 < k < db.walk(id, level, path).len() && (#[trigger] db.walk(id, level, path)[k]).id
                == chain.last(),
    decreases chain.len(),
{
    let kids = db.children_of(id);
    let child = chain[1];
    assert(db.children_of(chain[0]).contains(chain[0int + 1]));
    let at = choose|at: int| 0 <= at < kids.len() && kids[at] == child;
    assert(db.filed_under(id).contains(child));
    assert(db.weaknesses.contains_key(child));
    let longer = path.push(child);
    lemma_path_grows(db.weaknesses.dom(), path, child);
    db.lemma_walk_shape(child, level + 1, longer);
    let sub = db.walk(child, level + 1, longer);
    let step: int = if chain.len() == 2 {
        0
    } else {
        let rest = chain.drop_first();
        lemma_chain_rest(db, chain);
        assert(rest[0] == child);
        assert(rest.last() == chain.last());
        assert forall|i: int| 0 < i < rest.len() implies !longer.contains(#[trigger] rest[i]) by {
            assert(rest[i] == chain[i + 1]);
            if longer.contains(rest[i]) {
                let j = choose|j: int| 0 <= j < longer.len() && longer[j] == rest[i];
                if j < path.len() {
                    assert(path[j] == chain[i + 1]);
                    assert(path.contains(chain[i + 1]));
                } else {
                    assert(chain[1] == chain[i + 1]);
                }
            }
        }
        lemma_walk_complete(db, child, level + 1, longer, rest);
        choose|k: int| 0 < k < sub.len() && (#[trigger] sub[k]).id == chain.last()
    };
    assert(sub[step].id == chain.last());
    lemma_walk_children_includes(db, id, level + 1, path, 0, at, step);
    let below = db.walk_children(id, level + 1, path, 0);
    let k = choose|k: int| 0 <= k < below.len() && #[trigger] below[k] == sub[step];
    let walk = db.walk(id, level, path);
    assert(walk == seq![Visit { level, id }] + below);
    assert(walk[k + 1] == below[k]);
    assert(0 < k + 1 < walk.len() && walk[k + 1].id == chain.last());
}

/// The walk from a weakness visits, after the weakness itself, exactly its
/// descendants.
pub proof fn lemma_walk_visits_descendants(db: DatabaseView, id: i64)
    requires
        db.wf(),
    ensures
        forall|n: i64|
            #![trigger db.descendants(id).contains(n)]
            db.descendants(id).contains(n) <==> exists|k: int|
                0 < k < db.walk_from(id).len() && (#[trigger] db.walk_from(id)[k]).id == n,
{
    let walk = db.walk_from(id);
    let path = seq![id];
    assert forall|n: i64|
        #![trigger db.descendants(id).contains(n)]
        db.descendants(id).contains(n) <==> exists|k: int|
            0 < k < walk.len() && (#[trigger] walk[k]).id == n by {
        if db.descendants(id).contains(n) {
            let any = choose|chain: Seq<i64>| #[trigger]
                db.is_chain(chain) && chain.len() >= 2 && chain[0] == id && chain.last() == n;
            let chain = lemma_simple_chain(db, any);
            assert(chain.len() >= 2);
            assert forall|i: int| 0 < i < chain.len() implies !path.contains(
                #[trigger] chain[i],
            ) by {
                if path.contains(chain[i]) {
                    let j = choose|j: int| 0 <= j < path.len() && path[j] == chain[i];
                    assert(chain[0] == chain[i]);
                }
            }
            lemma_walk_complete(db, id, 0, path, chain);
        }
        if exists|k: int| 0 < k < walk.len() && (#[trigger] walk[k]).id == n {
            let k = choose|k: int| 0 < k < walk.len() && (#[trigger] walk[k]).id == n;
            lemma_walk_sound(db, id, 0, path, k);
            assert(path[0] == id);
            assert(n != id);
        }
    }
}

} // verus!
