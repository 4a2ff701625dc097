use crate::cwe::id_list::{contains_id, lemma_merged};
use crate::cwe::model::{trace_view, Visit};
use crate::cwe::weaknesses::Weakness;
use crate::cwe::{handed_in_turn, lists_weaknesses, visits_match, CweDatabase, WeaknessVisitor};
use std::rc::Rc;
use vstd::prelude::*;

verus! {

impl CweDatabase {
    /// Walks the hierarchy below `cwe_id` in preorder and appends the steps to
    /// `trace`: the weakness itself at depth `level`, then the walk below each of
    /// its children in turn. `path` holds the weaknesses from the start of the
    /// walk down to `cwe_id`, and a child that is on it is passed over.
    fn visit_weakness(
        &self,
        cwe_id: i64,
        level: usize,
        path: &mut Vec<i64>,
        trace: &mut Vec<(usize, i64)>,
    )
        requires
            self.wf(),
            old(path)@.len() == level + 1,
        ensures
            final(path)@ == old(path)@,
            trace_view(final(trace)@) == trace_view(old(trace)@) + self@.walk(
                cwe_id,
                level as nat,
                old(path)@,
            ),
        decreases
                self@.weaknesses.dom().difference(old(path)@.to_set()).len(),
                self@.children_of(cwe_id).len() + 1,
    {
        let ghost start = trace_view(trace@);
        let ghost on_path = path@;
        let ghost whole = self@.walk(cwe_id, level as nat, on_path);
        let ghost here = Visit { level: level as nat, id: cwe_id };
        proof {
            self.lemma_wf();
        }
        trace.push((level, cwe_id));
        proof {
            assert(trace_view(trace@) =~= start + seq![here]);
            assert(whole == seq![here] + self@.walk_children(
                cwe_id,
                level as nat + 1,
                on_path,
                0,
            ));
        }
        match self.children_list(cwe_id) {
            Some(kids) => {
                let mut i: usize = 0;
                proof {
                    assert(trace_view(trace@) + self@.walk_children(
                        cwe_id,
                        level as nat + 1,
                        on_path,
                        0,
                    ) =~= start + whole);
                }
                while i < kids.len()
                    invariant
                        self.wf(),
                        self@.wf(),
                        kids@ == self@.children_of(cwe_id),
                        i <= kids.len(),
                        path@ == on_path,
                        on_path == old(path)@,
                        on_path.len() == level + 1,
                        trace_view(trace@) + self@.walk_children(
                            cwe_id,
                            level as nat + 1,
                            on_path,
                            i as nat,
                        ) == start + whole,
                    decreases kids.len() - i,
                {
                    let kid = kids[i];
                    let ghost so_far = trace_view(trace@);
                    let ghost rest = self@.walk_children(
                        cwe_id,
                        level as nat + 1,
                        on_path,
                        (i + 1) as nat,
                    );
                    proof {
                        assert(self@.children_of(cwe_id).contains(kid));
                        assert(self@.filed_under(cwe_id).contains(kid));
                        assert(self@.weaknesses.contains_key(kid));
                    }
                    if !contains_id(path, kid) {
                        proof {
                            crate::cwe::model::lemma_path_grows(
                                self@.weaknesses.dom(),
                                on_path,
                                kid,
                            );
                        }
                        let next_level = path.len();
                        path.push(kid);
                        self.visit_weakness(kid, next_level, path, trace);
                        path.pop();
                        proof {
                            assert(path@ =~= on_path);
                            let below = self@.walk(kid, level as nat + 1, on_path.push(kid));
                            assert(trace_view(trace@) == so_far + below);
                            assert(self@.walk_children(
                                cwe_id,
                                level as nat + 1,
                                on_path,
                                i as nat,
                            ) == below + rest);
                            assert((so_far + below) + rest =~= so_far + (below + rest));
                        }
                    } else {
                        proof {
                            assert(self@.walk_children(
                                cwe_id,
                                level as nat + 1,
                                on_path,
                                i as nat,
                            ) =~= rest);
                        }
                    }
                    i += 1;
                }
                proof {
                    assert(self@.walk_children(
                        cwe_id,
                        level as nat + 1,
                        on_path,
                        kids.len() as nat,
                    ) =~= Seq::<Visit>::empty());
                    assert(trace_view(trace@) =~= start + whole);
                }
            },
            None => {
                proof {
                    assert(self@.walk_children(cwe_id, level as nat + 1, on_path, 0)
                        =~= Seq::<Visit>::empty());
                    assert(trace_view(trace@) =~= start + whole);
                }
            },
        }
    }

    /// The steps of the preorder walk that starts at `cwe_id`.
    pub(super) fn walk_trace(&self, cwe_id: i64) -> (trace: Vec<(usize, i64)>)
        requires
            self.wf(),
        ensures
            trace_view(trace@) == self@.walk_from(cwe_id),
    {
        let mut trace: Vec<(usize, i64)> = Vec::new();
        let mut path: Vec<i64> = Vec::new();
        path.push(cwe_id);
        proof {
            assert(path@ =~= seq![cwe_id]);
            assert(trace_view(trace@) =~= Seq::<Visit>::empty());
        }
        self.visit_weakness(cwe_id, 0, &mut path, &mut trace);
        proof {
            assert(Seq::<Visit>::empty() + self@.walk_from(cwe_id) =~= self@.walk_from(cwe_id));
        }
        trace
    }

    /// Returns a list of weaknesses that are children of a given CWE-ID.
    /// The list does not contain the weakness for the given CWE-ID.
    pub fn weakness_subtree_by_cwe_id(&self, cwe_id: i64) -> (subtree: Vec<Rc<Weakness>>)
        requires
            self.wf(),
        ensures
            lists_weaknesses(subtree@, self@.subtree_of(cwe_id), self@.weaknesses),
    {
        let mut ids: Vec<i64> = Vec::new();
        proof {
            self.lemma_wf();
            self.lemma_view();
        }
        if self.weakness_index.contains_key(&cwe_id) {
            let trace = self.walk_trace(cwe_id);
            let ghost walk = self@.walk_from(cwe_id);
            proof {
                self@.lemma_walk_shape(cwe_id, 0, seq![cwe_id]);
            }
            let mut i: usize = 1;
            while i < trace.len()
                invariant
                    1 <= i <= trace.len(),
                    trace_view(trace@) == walk,
                    walk == self@.walk_from(cwe_id),
                    ids@.no_duplicates(),
                    forall|x: i64|
                        ids@.contains(x) <==> exists|k: int|
                            0 < k < i && (#[trigger] walk[k]).id == x,
                decreases trace.len() - i,
            {
                let ghost before = ids@;
                proof {
                    lemma_merged(before, seq![trace@[i as int].1]);
                    assert(seq![trace@[i as int].1][0] == trace@[i as int].1);
                    assert(walk[i as int].id == trace@[i as int].1);
                }
                crate::cwe::id_list::insert_id(&mut ids, trace[i].1);
                proof {
                    let added = trace@[i as int].1;
                    assert forall|x: i64|
                        ids@.contains(x) <==> exists|k: int|
                            0 < k < i + 1 && (#[trigger] walk[k]).id == x by {
                        if seq![added].contains(x) {
                            let j = choose|j: int| 0 <= j < seq![added].len() && seq![added][j] == x;
                            assert(x == added);
                        }
                        if before.contains(x) {
                            let k = choose|k: int| 0 < k < i && (#[trigger] walk[k]).id == x;
                            assert(0 < k < i + 1 && walk[k].id == x);
                        }
                        if exists|k: int| 0 < k < i + 1 && (#[trigger] walk[k]).id == x {
                            let k = choose|k: int| 0 < k < i + 1 && (#[trigger] walk[k]).id == x;
                            if k < i {
                                assert(before.contains(x));
                            } else {
                                assert(x == added);
                            }
                        }
                    }
                }
                i += 1;
            }
            proof {
                assert forall|j: int| 0 <= j < ids@.len() implies self@.weaknesses.contains_key(
                    #[trigger] ids@[j],
                ) by {
                    assert(ids@.contains(ids@[j]));
                    let k = choose|k: int|
                        0 < k < trace@.len() && (#[trigger] walk[k]).id == ids@[j];
                    assert(self@.weaknesses.contains_key(walk[k].id));
                }
                crate::cwe::reach::lemma_walk_visits_descendants(self@, cwe_id);
                assert(ids@.to_set() =~= self@.subtree_of(cwe_id));
            }
        } else {
            proof {
                assert(ids@.to_set() =~= self@.subtree_of(cwe_id));
            }
        }
        let subtree = self.records_of(&ids);
        proof {
            assert forall|j: int| 0 <= j < subtree@.len() implies self@.subtree_of(cwe_id).contains(
                (#[trigger] subtree@[j]).id,
            ) && self@.weaknesses.contains_key(subtree@[j].id) && subtree@[j]
                == self@.weaknesses[subtree@[j].id] by {
                assert(ids@.contains(ids@[j]));
                assert(self@.weaknesses.contains_key(ids@[j]));
            }
            assert forall|id: i64| self@.subtree_of(cwe_id).contains(id) implies exists|j: int|
                0 <= j < subtree@.len() && (#[trigger] subtree@[j]).id == id by {
                assert(ids@.to_set().contains(id));
                let j = choose|j: int| 0 <= j < ids@.len() && ids@[j] == id;
                assert(self@.weaknesses.contains_key(ids@[j]));
                assert(subtree@[j].id == id);
            }
            assert forall|a: int, b: int| 0 <= a < b < subtree@.len() implies (
            #[trigger] subtree@[a]).id != (#[trigger] subtree@[b]).id by {
                assert(self@.weaknesses.contains_key(ids@[a]));
                assert(self@.weaknesses.contains_key(ids@[b]));
            }
        }
        subtree
    }

    /// The preorder walk over the whole hierarchy, as `visit_weaknesses` makes it:
    /// each step with its depth and the record of the weakness visited.
    pub fn visit_order(&self) -> (order: Vec<(usize, Rc<Weakness>)>)
        requires
            self.wf(),
        ensures
            visits_match(order@, self@.walk_roots(0), self@.weaknesses),
    {
        let mut trace: Vec<(usize, i64)> = Vec::new();
        let mut r: usize = 0;
        let ghost whole = self@.walk_roots(0);
        proof {
            self.lemma_wf();
            self.lemma_view();
            assert(trace_view(trace@) + self@.walk_roots(0) =~= whole);
        }
        while r < self.weakness_roots_index.len()
            invariant
                self.wf(),
                self@.wf(),
                self@.roots == self.weakness_roots_index@,
                r <= self.weakness_roots_index.len(),
                whole == self@.walk_roots(0),
                trace_view(trace@) + self@.walk_roots(r as nat) == whole,
                forall|k: int|
                    0 <= k < trace@.len() ==> self@.weaknesses.contains_key(
                        (#[trigger] trace@[k]).1,
                    ),
            decreases self.weakness_roots_index.len() - r,
        {
            let root = self.weakness_roots_index[r];
            let ghost so_far = trace_view(trace@);
            let ghost before = trace@;
            let ghost below = self@.walk_from(root);
            let ghost rest = self@.walk_roots((r + 1) as nat);
            let mut path: Vec<i64> = Vec::new();
            path.push(root);
            proof {
                assert(path@ =~= seq![root]);
                assert(self@.roots.contains(root));
                self@.lemma_walk_shape(root, 0, seq![root]);
            }
            self.visit_weakness(root, 0, &mut path, &mut trace);
            proof {
                assert(trace_view(trace@) == so_far + below);
                assert(self@.walk_roots(r as nat) == below + rest);
                assert((so_far + below) + rest =~= so_far + (below + rest));
                assert forall|k: int| 0 <= k < trace@.len() implies self@.weaknesses.contains_key(
                    (#[trigger] trace@[k]).1,
                ) by {
                    assert(trace_view(trace@)[k].id == trace@[k].1);
                    if k < before.len() {
                        assert(so_far[k].id == before[k].1);
                        assert(trace_view(trace@)[k] == so_far[k]);
                    } else {
                        assert(trace_view(trace@)[k] == below[k - before.len()]);
                    }
                }
            }
            r += 1;
        }
        proof {
            assert(self@.walk_roots(self.weakness_roots_index.len() as nat) =~= Seq::<
                Visit,
            >::empty());
            assert(trace_view(trace@) =~= whole);
        }
        let mut order: Vec<(usize, Rc<Weakness>)> = Vec::new();
        let mut i: usize = 0;
        while i < trace.len()
            invariant
                i <= trace.len(),
                self@.weaknesses == self.weakness_index@,
                trace_view(trace@) == whole,
                forall|k: int|
                    0 <= k < trace@.len() ==> self@.weaknesses.contains_key(
                        (#[trigger] trace@[k]).1,
                    ),
                order@.len() == i,
                forall|k: int|
                    0 <= k < i ==> (#[trigger] order@[k]).0 == trace@[k].0 && order@[k].1
                        == self@.weaknesses[trace@[k].1],
            decreases trace.len() - i,
        {
            let level = trace[i].0;
            let found = self.weakness_index.get(&trace[i].1);
            proof {
                assert(self@.weaknesses.contains_key(trace@[i as int].1));
            }
            match found {
                Some(record) => {
                    order.push((level, record.clone()));
                },
                None => {
                    proof {
                        assert(false);
                    }
                },
            }
            i += 1;
        }
        proof {
            assert forall|k: int| 0 <= k < order@.len() implies (#[trigger] order@[k]).0
                == whole[k].level && self@.weaknesses.contains_key(whole[k].id) && order@[k].1
                == self@.weaknesses[whole[k].id] by {
                assert(trace_view(trace@)[k].id == trace@[k].1);
                assert(self@.weaknesses.contains_key(trace@[k].1));
            }
        }
        order
    }

    /// Visit all root weaknesses in the database and their children: the visitor
    /// is handed the steps of `visit_order`, one by one.
    pub fn visit_weaknesses<V: WeaknessVisitor>(&self, visitor: &mut V)
        requires
            self.wf(),
        ensures
            handed_in_turn(*old(visitor), *final(visitor), self@, self@.walk_roots(0)),
    {
        let order = self.visit_order();
        let ghost walk = self@.walk_roots(0);
        let mut i: usize = 0;
        proof {
            assert(walk.take(0) =~= Seq::<Visit>::empty());
        }
        while i < order.len()
            invariant
                i <= order.len(),
                self.wf(),
                walk == self@.walk_roots(0),
                visits_match(order@, walk, self@.weaknesses),
                handed_in_turn(*old(visitor), *visitor, self@, walk.take(i as int)),
            decreases order.len() - i,
        {
            let ghost before = *visitor;
            visitor.visit(self, order[i].0, order[i].1.clone());
            proof {
                let next = walk.take(i + 1);
                assert(next.drop_last() =~= walk.take(i as int));
                assert(next.last() == walk[i as int]);
                assert(handed_in_turn(*old(visitor), before, self@, next.drop_last()));
                assert(visitor.visited(
                    &before,
                    self@,
                    next.last().level,
                    self@.weaknesses[next.last().id],
                ));
                assert(next.len() == i + 1);
            }
            i += 1;
        }
        proof {
            assert(walk.take(order.len() as int) =~= walk);
        }
    }
}

} // verus!
