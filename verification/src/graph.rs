use vstd::prelude::*;

use crate::arena::{Arena, Dependency};
use crate::id_map::{strictly_increasing, IdMap};
use crate::ids::{DependencyId, TaskId};
use crate::task::Task;

verus! {

/// The right side of a fact: the dependency through which a task leads to another task.
#[derive(Debug, Clone, Copy, PartialEq, Eq, Structural, Hash, PartialOrd, Ord)]
pub struct Predicate {
    pub dependency_id: DependencyId,
    pub task_id: TaskId,
}

/// Errors of the graph operations.
#[derive(Debug, Clone, Copy, PartialEq, Eq, Structural)]
pub enum GraphError {
    /// The task is not part of the graph.
    TaskNotFound { task_id: TaskId },
    /// One of the two end points of a path is not part of the graph.
    TasksNotFound,
    /// The operation needs an acyclic graph and the graph has a cycle.
    CyclesPresent,
}

/// A dependency graph: every task maps to the predicates that lead from it
/// to the tasks that depend on it.
///
/// The full tasks and dependencies are kept apart, in the arena, so that the
/// structure of the graph stays small.
pub struct Graph {
    arena: Arena,
    facts: IdMap<Vec<Predicate>>,
}

/// The predicate of the edge that makes `to` depend on `from`.
pub open spec fn edge_predicate(from: TaskId, to: TaskId) -> Predicate {
    Predicate { dependency_id: DependencyId { from, to }, task_id: to }
}

/// Whether a predicate survives a removal of the predicates leading to `to`
/// (through `dep`, when one is given).
pub open spec fn kept(dep: Option<DependencyId>, to: TaskId, p: Predicate) -> bool {
    !(p.task_id == to && (dep is None || dep == Some(p.dependency_id)))
}

/// The test that `kept` applies, as a function of the predicate.
pub open spec fn keep_fn(dep: Option<DependencyId>, to: TaskId) -> spec_fn(Predicate) -> bool {
    |p: Predicate| kept(dep, to, p)
}

/// The sum of the numbers of predicates of the tasks in `ts`.
pub open spec fn total_preds(g: Graph, ts: Seq<TaskId>) -> int
    decreases ts.len(),
{
    if ts.len() == 0 {
        0
    } else {
        total_preds(g, ts.drop_last()) + g.preds_of(ts.last()).len()
    }
}

/// Whether some task of the graph leads to `t`.
pub open spec fn has_incoming(g: Graph, t: TaskId) -> bool {
    exists|u: TaskId| #[trigger] g.edge(u, t)
}

/// The predicates of `v` that survive a removal of those leading to `to`.
fn drop_predicates(v: &Vec<Predicate>, dep: Option<DependencyId>, to: TaskId) -> (out: Vec<Predicate>)
    ensures
        out@ == v@.filter(keep_fn(dep, to)),
{
    let mut out: Vec<Predicate> = Vec::new();
    let mut i: usize = 0;
    while i < v.len()
        invariant
            i <= v@.len(),
            out@ == v@.subrange(0, i as int).filter(keep_fn(dep, to)),
        decreases v@.len() - i,
    {
        let p = v[i];
        proof {
            assert(v@.subrange(0, i + 1) == v@.subrange(0, i as int).push(p));
            v@.subrange(0, i as int).lemma_filter_push(p, keep_fn(dep, to));
        }
        let keep = match dep {
            Some(d) => !(p.task_id == to && p.dependency_id == d),
            None => !(p.task_id == to),
        };
        if keep {
            out.push(p);
        }
        i = i + 1;
    }
    proof {
        assert(v@.subrange(0, v@.len() as int) == v@);
    }
    out
}

/// The task identifiers a sequence of predicates leads to.
pub open spec fn targets(ps: Seq<Predicate>) -> Seq<TaskId> {
    ps.map_values(|p: Predicate| p.task_id)
}

impl Graph {
    /// The storage of the full tasks and dependencies.
    pub closed spec fn store(&self) -> Arena {
        self.arena
    }

    /// The facts of the graph, by task.
    pub closed spec fn table(&self) -> Map<TaskId, Vec<Predicate>> {
        self.facts@
    }

    /// The tasks of the graph in increasing order of identifier.
    pub closed spec fn task_seq(&self) -> Seq<TaskId> {
        self.facts.key_seq()
    }

    /// Whether `t` is a task of the graph.
    pub open spec fn has_task(&self, t: TaskId) -> bool {
        self.table().contains_key(t)
    }

    /// The predicates of `t`, empty for a task outside the graph.
    pub open spec fn preds_of(&self, t: TaskId) -> Seq<Predicate> {
        if self.has_task(t) {
            self.table()[t]@
        } else {
            Seq::empty()
        }
    }

    /// The tasks that `t` leads to, in the order of its predicates.
    pub open spec fn succs(&self, t: TaskId) -> Seq<TaskId> {
        targets(self.preds_of(t))
    }

    /// Whether the graph has an edge from `u` to `v`: `v` depends on `u`.
    pub open spec fn edge(&self, u: TaskId, v: TaskId) -> bool {
        self.succs(u).contains(v)
    }

    /// Every edge joins two tasks of the graph, and the arena is consistent.
    pub open spec fn wf(&self) -> bool {
        &&& self.store().wf()
        &&& forall|u: TaskId, v: TaskId| #[trigger] self.edge(u, v) ==> self.has_task(u) && self.has_task(v)
    }

    /// The order of `task_seq`: strictly increasing, and exactly the tasks.
    pub proof fn lemma_task_seq(&self)
        ensures
            strictly_increasing(self.task_seq()),
            forall|t: TaskId| #[trigger] self.task_seq().contains(t) <==> self.has_task(t),
            self.task_seq().len() <= 256,
    {
        self.facts.lemma_key_seq();
    }

    /// An empty graph.
    pub fn new() -> (r: Graph)
        ensures
            r.wf(),
            r.table() == Map::<TaskId, Vec<Predicate>>::empty(),
            r.store().task_map() == Map::<TaskId, Task>::empty(),
            r.store().dependency_seq() == Seq::<Dependency>::empty(),
    {
        Graph { arena: Arena::new(), facts: IdMap::new() }
    }

    /// An empty graph; the capacity is a hint only.
    pub fn with_capacity(capacity: usize) -> (r: Graph)
        ensures
            r.wf(),
            r.table() == Map::<TaskId, Vec<Predicate>>::empty(),
            r.store().task_map() == Map::<TaskId, Task>::empty(),
            r.store().dependency_seq() == Seq::<Dependency>::empty(),
    {
        Graph { arena: Arena::with_capacity(capacity), facts: IdMap::new() }
    }

    /// The arena of the graph.
    pub fn arena(&self) -> (r: &Arena)
        ensures
            *r == self.store(),
    {
        &self.arena
    }

    /// The stored task with identifier `id`, if any.
    pub fn task(&self, id: TaskId) -> (r: Option<&Task>)
        ensures
            r matches Some(t) ==> self.store().task_map().contains_key(id) && *t == self.store().task_map()[id],
            r is None ==> !self.store().task_map().contains_key(id),
    {
        self.arena.task(id)
    }

    /// The stored dependency with identifier `id`, if any.
    pub fn dependency(&self, id: DependencyId) -> (r: Option<&Dependency>)
        requires
            self.wf(),
        ensures
            r matches Some(d) ==> d.id == id && self.store().dependency_seq().contains(*d),
            r is None ==> forall|d: Dependency| #[trigger] self.store().dependency_seq().contains(d) ==> d.id != id,
    {
        self.arena.dependency(id)
    }

    /// Splits the graph into its arena and its facts.
    pub fn into_parts(self) -> (r: (Arena, IdMap<Vec<Predicate>>))
        ensures
            r.0 == self.store(),
            r.1@ == self.table(),
    {
        (self.arena, self.facts)
    }

    /// Adds `task_id` as a task without predicates; a task already present is left as it is.
    pub fn add_task(&mut self, task_id: TaskId)
        requires
            old(self).wf(),
        ensures
            final(self).wf(),
            final(self).store() == old(self).store(),
            forall|t: TaskId| #[trigger] final(self).has_task(t) <==> (old(self).has_task(t) || t == task_id),
            forall|t: TaskId| #[trigger] final(self).preds_of(t) == old(self).preds_of(t),
    {
        if !self.facts.contains_key(task_id) {
            let _ = self.facts.insert(task_id, Vec::new());
            proof {
                assert(self.preds_of(task_id) =~= old(self).preds_of(task_id));
                assert forall|u: TaskId, v: TaskId| #[trigger] self.edge(u, v) implies self.has_task(u) && self.has_task(v) by {
                    assert(self.preds_of(u) == old(self).preds_of(u));
                    assert(self.succs(u) == old(self).succs(u));
                    assert(old(self).edge(u, v));
                }
            }
        }
    }

    /// Adds the predicate `dependency_id`/`to_task` to `from_task`, adding
    /// both tasks to the graph where they are missing.
    pub fn add_dependency(&mut self, from_task: TaskId, dependency_id: DependencyId, to_task: TaskId) -> (r: Result<(), GraphError>)
        requires
            old(self).wf(),
        ensures
            r is Ok,
            final(self).wf(),
            final(self).store() == old(self).store(),
            forall|t: TaskId| #[trigger] final(self).has_task(t) <==> (old(self).has_task(t) || t == from_task || t == to_task),
            forall|t: TaskId| #[trigger] final(self).preds_of(t) == if t == from_task {
                old(self).preds_of(t).push(Predicate { dependency_id, task_id: to_task })
            } else {
                old(self).preds_of(t)
            },
    {
        let predicate = Predicate { dependency_id, task_id: to_task };
        let mut list: Vec<Predicate> = match self.facts.remove(from_task) {
            Some(v) => v,
            None => Vec::new(),
        };
        list.push(predicate);
        let _ = self.facts.insert(from_task, list);
        if !self.facts.contains_key(to_task) {
            let _ = self.facts.insert(to_task, Vec::new());
        }
        proof {
            assert forall|t: TaskId| #[trigger] self.preds_of(t) == if t == from_task {
                old(self).preds_of(t).push(predicate)
            } else {
                old(self).preds_of(t)
            } by {}
            assert forall|u: TaskId, v: TaskId| #[trigger] self.edge(u, v) implies self.has_task(u) && self.has_task(v) by {
                if u == from_task {
                    let s = old(self).preds_of(u);
                    assert(self.preds_of(u) == s.push(predicate));
                    let k = choose|k: int| 0 <= k < self.succs(u).len() && self.succs(u)[k] == v;
                    if k < s.len() {
                        assert(targets(s)[k] == v);
                        assert(old(self).edge(u, v));
                    }
                } else {
                    assert(self.succs(u) == old(self).succs(u));
                    assert(old(self).edge(u, v));
                }
            }
        }
        Ok(())
    }

    /// Adds a task to the arena and to the graph, with an edge from each of its
    /// dependencies to it.
    pub fn add(&mut self, task: Task) -> (r: Result<(), GraphError>)
        requires
            old(self).wf(),
        ensures
            r is Ok,
            final(self).wf(),
            final(self).store().task_map() == old(self).store().task_map().insert(task.spec_id(), task),
            final(self).store().dependency_seq() == old(self).store().dependency_seq(),
            forall|t: TaskId| #[trigger] final(self).has_task(t) <==> (old(self).has_task(t)
                || task.deps().contains(t) || t == task.spec_id()),
            forall|t: TaskId| #[trigger] final(self).preds_of(t) == if task.deps().contains(t) {
                old(self).preds_of(t).push(edge_predicate(t, task.spec_id()))
            } else {
                old(self).preds_of(t)
            },
    {
        let task_id = task.id();
        let deps = task.dependencies();
        let n = deps.len();
        let mut i: usize = 0;
        while i < n
            invariant
                i <= n,
                n == deps@.len(),
                deps@ == task.deps(),
                task_id == task.spec_id(),
                strictly_increasing(deps@),
                self.wf(),
                self.store() == old(self).store(),
                forall|t: TaskId| #[trigger] self.has_task(t) <==> (old(self).has_task(t)
                    || deps@.subrange(0, i as int).contains(t) || (t == task_id && i > 0)),
                forall|t: TaskId| #[trigger] self.preds_of(t) == if deps@.subrange(0, i as int).contains(t) {
                    old(self).preds_of(t).push(edge_predicate(t, task_id))
                } else {
                    old(self).preds_of(t)
                },
            decreases n - i,
        {
            let from = deps[i];
            let ghost before = *self;
            let _ = self.add_dependency(from, DependencyId::new(from, task_id), task_id);
            proof {
                let sub = deps@.subrange(0, i as int);
                let sub2 = deps@.subrange(0, i + 1);
                assert(sub2 == sub.push(from));
                assert(!sub.contains(from)) by {
                    if sub.contains(from) {
                        let k = choose|k: int| 0 <= k < sub.len() && sub[k] == from;
                        assert(deps@[k].0 < deps@[i as int].0);
                    }
                }
                assert forall|t: TaskId| #[trigger] sub2.contains(t) <==> (sub.contains(t) || t == from) by {
                    if sub2.contains(t) {
                        let k = choose|k: int| 0 <= k < sub2.len() && sub2[k] == t;
                        if k < sub.len() {
                            assert(sub[k] == t);
                        }
                    }
                    if sub.contains(t) {
                        let k = choose|k: int| 0 <= k < sub.len() && sub[k] == t;
                        assert(sub2[k] == t);
                    }
                    if t == from {
                        assert(sub2[i as int] == t);
                    }
                }
                assert forall|t: TaskId| #[trigger] self.preds_of(t) == if sub2.contains(t) {
                    old(self).preds_of(t).push(edge_predicate(t, task_id))
                } else {
                    old(self).preds_of(t)
                } by {
                    assert(before.preds_of(t) == if sub.contains(t) {
                        old(self).preds_of(t).push(edge_predicate(t, task_id))
                    } else {
                        old(self).preds_of(t)
                    });
                }
            }
            i = i + 1;
        }
        proof {
            assert(deps@.subrange(0, n as int) == deps@);
        }
        self.add_task(task_id);
        let ghost mid = *self;
        self.arena.add_task(task);
        proof {
            assert(self.table() == mid.table());
            assert forall|t: TaskId| #[trigger] self.preds_of(t) == mid.preds_of(t) by {}
            assert forall|t: TaskId| #[trigger] self.succs(t) == mid.succs(t) by {}
            assert forall|t: TaskId| #[trigger] self.has_task(t) == mid.has_task(t) by {}
            assert forall|u: TaskId, v: TaskId| #[trigger] self.edge(u, v) implies self.has_task(u) && self.has_task(v) by {
                assert(mid.edge(u, v));
            }
        }
        Ok(())
    }

    /// Removes a task and every predicate leading to it; tells whether the task was present.
    pub fn remove_task(&mut self, task_id: TaskId) -> (r: Result<bool, GraphError>)
        requires
            old(self).wf(),
        ensures
            r == Ok::<bool, GraphError>(old(self).has_task(task_id)),
            final(self).wf(),
            final(self).store() == old(self).store(),
            forall|t: TaskId| #[trigger] final(self).has_task(t) <==> (old(self).has_task(t) && t != task_id),
            forall|t: TaskId| t != task_id ==> #[trigger] final(self).preds_of(t)
                == old(self).preds_of(t).filter(keep_fn(None, task_id)),
    {
        let removed = self.facts.remove(task_id).is_some();
        proof { self.facts.lemma_key_seq(); }
        let keys = self.facts.keys();
        let ghost mid = *self;
        let mut i: usize = 0;
        while i < keys.len()
            invariant
                i <= keys@.len(),
                keys@ == mid.task_seq(),
                strictly_increasing(keys@),
                forall|t: TaskId| #[trigger] keys@.contains(t) <==> mid.has_task(t),
                self.store() == old(self).store(),
                forall|t: TaskId| #[trigger] self.has_task(t) <==> mid.has_task(t),
                forall|t: TaskId| #[trigger] mid.has_task(t) <==> (old(self).has_task(t) && t != task_id),
                forall|t: TaskId| mid.has_task(t) ==> #[trigger] mid.preds_of(t) == old(self).preds_of(t),
                forall|t: TaskId| #[trigger] self.preds_of(t) == if keys@.subrange(0, i as int).contains(t) {
                    mid.preds_of(t).filter(keep_fn(None, task_id))
                } else {
                    mid.preds_of(t)
                },
            decreases keys@.len() - i,
        {
            let k = keys[i];
            let ghost before = *self;
            assert(keys@[i as int] == k);
            assert(keys@.contains(k));
            assert(mid.has_task(k));
            assert(self.has_task(k));
            let v = self.facts.remove(k).unwrap();
            let f = drop_predicates(&v, None, task_id);
            let _ = self.facts.insert(k, f);
            proof {
                let sub = keys@.subrange(0, i as int);
                let sub2 = keys@.subrange(0, i + 1);
                assert forall|t: TaskId| #[trigger] sub2.contains(t) <==> (sub.contains(t) || t == k) by {
                    if sub2.contains(t) {
                        let j = choose|j: int| 0 <= j < sub2.len() && sub2[j] == t;
                        if j < sub.len() {
                            assert(sub[j] == t);
                        }
                    }
                    if sub.contains(t) {
                        let j = choose|j: int| 0 <= j < sub.len() && sub[j] == t;
                        assert(sub2[j] == t);
                    }
                    if t == k {
                        assert(sub2[i as int] == t);
                    }
                }
                assert(!sub.contains(k)) by {
                    if sub.contains(k) {
                        let j = choose|j: int| 0 <= j < sub.len() && sub[j] == k;
                        assert(keys@[j].0 < keys@[i as int].0);
                    }
                }
                assert forall|t: TaskId| #[trigger] self.preds_of(t) == if sub2.contains(t) {
                    mid.preds_of(t).filter(keep_fn(None, task_id))
                } else {
                    mid.preds_of(t)
                } by {
                    if t == k {
                        assert(before.preds_of(t) == mid.preds_of(t));
                    } else {
                        assert(before.preds_of(t) == self.preds_of(t));
                    }
                }
                assert forall|t: TaskId| #[trigger] self.has_task(t) <==> mid.has_task(t) by {
                    if t != k { assert(before.has_task(t) == self.has_task(t)); }
                }
            }
            i = i + 1;
        }
        proof {
            assert(keys@.subrange(0, keys@.len() as int) == keys@);
            assert forall|t: TaskId| t != task_id implies #[trigger] self.preds_of(t)
                == old(self).preds_of(t).filter(keep_fn(None, task_id)) by {
                if !mid.has_task(t) {
                    assert(!old(self).has_task(t));
                    assert(old(self).preds_of(t) == Seq::<Predicate>::empty());
                    assert(Seq::<Predicate>::empty().filter(keep_fn(None, task_id)) =~= Seq::<Predicate>::empty());
                }
            }
            assert forall|u: TaskId, v: TaskId| #[trigger] self.edge(u, v) implies self.has_task(u) && self.has_task(v) by {
                let s = old(self).preds_of(u);
                let fs = s.filter(keep_fn(None, task_id));
                if u == task_id {
                    assert(self.preds_of(u) == Seq::<Predicate>::empty());
                } else {
                    assert(self.preds_of(u) == fs);
                    let j = choose|j: int| 0 <= j < self.succs(u).len() && self.succs(u)[j] == v;
                    let p = fs[j];
                    assert(targets(fs)[j] == p.task_id);
                    assert(fs.contains(p));
                    s.lemma_filter_contains_rev(keep_fn(None, task_id), p);
                    s.lemma_filter_pred(keep_fn(None, task_id), j);
                    assert(s.contains(p));
                    let m = choose|m: int| 0 <= m < s.len() && s[m] == p;
                    assert(targets(s)[m] == v);
                    assert(old(self).edge(u, v));
                    assert(p.task_id != task_id);
                }
            }
        }
        Ok(removed)
    }

    /// Removes the predicates of `from_task` that lead to `to_task` through
    /// `dependency_id`; tells whether any was removed.
    pub fn remove_dependency(&mut self, from_task: TaskId, dependency_id: DependencyId, to_task: TaskId) -> (r: Result<bool, GraphError>)
        requires
            old(self).wf(),
        ensures
            r == Ok::<bool, GraphError>(old(self).has_task(from_task)
                && old(self).preds_of(from_task).filter(keep_fn(Some(dependency_id), to_task)).len()
                    != old(self).preds_of(from_task).len()),
            final(self).wf(),
            final(self).store() == old(self).store(),
            forall|t: TaskId| #[trigger] final(self).has_task(t) <==> old(self).has_task(t),
            forall|t: TaskId| #[trigger] final(self).preds_of(t) == if t == from_task {
                old(self).preds_of(t).filter(keep_fn(Some(dependency_id), to_task))
            } else {
                old(self).preds_of(t)
            },
    {
        match self.facts.remove(from_task) {
            Some(v) => {
                let f = drop_predicates(&v, Some(dependency_id), to_task);
                let changed = f.len() != v.len();
                let _ = self.facts.insert(from_task, f);
                proof {
                    assert(self.preds_of(from_task) == old(self).preds_of(from_task).filter(keep_fn(Some(dependency_id), to_task)));
                    assert forall|t: TaskId| t != from_task implies #[trigger] self.preds_of(t) == old(self).preds_of(t) by {}
                    assert forall|t: TaskId| #[trigger] self.has_task(t) <==> old(self).has_task(t) by {}
                    assert forall|u: TaskId, w: TaskId| #[trigger] self.edge(u, w) implies self.has_task(u) && self.has_task(w) by {
                        if u == from_task {
                            let s = old(self).preds_of(u);
                            let fs = s.filter(keep_fn(Some(dependency_id), to_task));
                            let j = choose|j: int| 0 <= j < self.succs(u).len() && self.succs(u)[j] == w;
                            let p = fs[j];
                            assert(targets(fs)[j] == p.task_id);
                            assert(fs.contains(p));
                            s.lemma_filter_contains_rev(keep_fn(Some(dependency_id), to_task), p);
                            let m = choose|m: int| 0 <= m < s.len() && s[m] == p;
                            assert(targets(s)[m] == w);
                            assert(old(self).edge(u, w));
                        } else {
                            assert(self.preds_of(u) == old(self).preds_of(u));
                            assert(old(self).edge(u, w));
                        }
                    }
                }
                Ok(changed)
            },
            None => {
                proof {
                    assert(self.table() =~= old(self).table());
                    assert(self.store().wf());
                    assert forall|u: TaskId, w: TaskId| #[trigger] self.edge(u, w) implies self.has_task(u) && self.has_task(w) by {
                        assert(old(self).edge(u, w));
                    }
                }
                Ok(false)
            },
        }
    }
}

/// Whether one of the predicates `ps` leads to `to`.
fn leads_to(ps: &Vec<Predicate>, to: TaskId) -> (r: bool)
    ensures
        r == targets(ps@).contains(to),
{
    let mut i: usize = 0;
    while i < ps.len()
        invariant
            i <= ps@.len(),
            forall|j: int| 0 <= j < i ==> ps@[j].task_id != to,
        decreases ps@.len() - i,
    {
        if ps[i].task_id == to {
            assert(targets(ps@)[i as int] == to);
            return true;
        }
        i = i + 1;
    }
    proof {
        if targets(ps@).contains(to) {
            let j = choose|j: int| 0 <= j < targets(ps@).len() && targets(ps@)[j] == to;
            assert(ps@[j].task_id == to);
        }
    }
    false
}

/// The test of `get_dependencies`: `u` leads to `t`.
pub open spec fn leads_to_fn(g: Graph, t: TaskId) -> spec_fn(TaskId) -> bool {
    |u: TaskId| g.edge(u, t)
}

/// The test of `root_tasks`: nothing leads to the task.
pub open spec fn root_fn(g: Graph) -> spec_fn(TaskId) -> bool {
    |t: TaskId| !has_incoming(g, t)
}

/// The test of `leaf_tasks`: the task leads nowhere.
pub open spec fn leaf_fn(g: Graph) -> spec_fn(TaskId) -> bool {
    |t: TaskId| g.succs(t).len() == 0
}

impl Graph {
    /// Whether `task_id` is a task of the graph.
    pub fn contains_task(&self, task_id: TaskId) -> (r: bool)
        ensures
            r == self.has_task(task_id),
    {
        self.facts.contains_key(task_id)
    }

    /// The tasks of the graph, in increasing order of identifier.
    pub fn task_ids(&self) -> (r: Vec<TaskId>)
        ensures
            r@ == self.task_seq(),
    {
        self.facts.keys()
    }

    /// The number of tasks of the graph.
    pub fn task_count(&self) -> (r: usize)
        ensures
            r == self.task_seq().len(),
    {
        self.facts.len()
    }

    /// The predicates of `task_id`, if it is a task of the graph.
    pub fn get_predicates(&self, task_id: TaskId) -> (r: Option<&Vec<Predicate>>)
        ensures
            r matches Some(v) ==> self.has_task(task_id) && v@ == self.preds_of(task_id),
            r is None ==> !self.has_task(task_id),
    {
        self.facts.get(task_id)
    }

    /// Whether an edge leads from `from_task` to `to_task`.
    pub fn has_dependency(&self, from_task: TaskId, to_task: TaskId) -> (r: bool)
        ensures
            r == self.edge(from_task, to_task),
    {
        match self.facts.get(from_task) {
            Some(v) => leads_to(v, to_task),
            None => false,
        }
    }

    /// The tasks that depend on `task_id`, in the order of its predicates.
    pub fn get_dependents(&self, task_id: TaskId) -> (r: Vec<TaskId>)
        ensures
            r@ == self.succs(task_id),
    {
        let mut out: Vec<TaskId> = Vec::new();
        match self.facts.get(task_id) {
            Some(v) => {
                let mut i: usize = 0;
                while i < v.len()
                    invariant
                        i <= v@.len(),
                        v@ == self.preds_of(task_id),
                        out@ == targets(v@.subrange(0, i as int)),
                    decreases v@.len() - i,
                {
                    out.push(v[i].task_id);
                    proof {
                        assert(targets(v@.subrange(0, i + 1)) =~= targets(v@.subrange(0, i as int)).push(v@[i as int].task_id));
                    }
                    i = i + 1;
                }
                proof {
                    assert(v@.subrange(0, v@.len() as int) == v@);
                }
            },
            None => {
                proof {
                    assert(targets(self.preds_of(task_id)) =~= Seq::<TaskId>::empty());
                }
            },
        }
        out
    }

    /// The tasks that `task_id` depends on: those with an edge to it, in
    /// increasing order of identifier.
    pub fn get_dependencies(&self, task_id: TaskId) -> (r: Vec<TaskId>)
        requires
            self.wf(),
        ensures
            r@ == self.task_seq().filter(leads_to_fn(*self, task_id)),
            forall|u: TaskId| #[trigger] r@.contains(u) <==> self.edge(u, task_id),
            strictly_increasing(r@),
    {
        let keys = self.facts.keys();
        let mut out: Vec<TaskId> = Vec::new();
        let mut i: usize = 0;
        while i < keys.len()
            invariant
                i <= keys@.len(),
                keys@ == self.task_seq(),
                out@ == keys@.subrange(0, i as int).filter(leads_to_fn(*self, task_id)),
            decreases keys@.len() - i,
        {
            let u = keys[i];
            proof {
                assert(keys@.subrange(0, i + 1) == keys@.subrange(0, i as int).push(u));
                keys@.subrange(0, i as int).lemma_filter_push(u, leads_to_fn(*self, task_id));
            }
            if self.has_dependency(u, task_id) {
                out.push(u);
            }
            i = i + 1;
        }
        proof {
            assert(keys@.subrange(0, keys@.len() as int) == keys@);
            self.lemma_task_seq();
            lemma_filter_increasing(keys@, leads_to_fn(*self, task_id));
            assert forall|u: TaskId| #[trigger] out@.contains(u) <==> self.edge(u, task_id) by {
                if out@.contains(u) {
                    keys@.lemma_filter_contains_rev(leads_to_fn(*self, task_id), u);
                    let j = choose|j: int| 0 <= j < out@.len() && out@[j] == u;
                    keys@.lemma_filter_pred(leads_to_fn(*self, task_id), j);
                }
                if self.edge(u, task_id) {
                    assert(keys@.contains(u));
                    let j = choose|j: int| 0 <= j < keys@.len() && keys@[j] == u;
                    keys@.lemma_filter_contains(leads_to_fn(*self, task_id), j);
                }
            }
        }
        out
    }

    /// Whether some task leads to `t`.
    fn incoming(&self, t: TaskId) -> (r: bool)
        requires
            self.wf(),
        ensures
            r == has_incoming(*self, t),
    {
        let keys = self.facts.keys();
        let mut i: usize = 0;
        while i < keys.len()
            invariant
                i <= keys@.len(),
                keys@ == self.task_seq(),
                forall|j: int| 0 <= j < i ==> !self.edge(#[trigger] keys@[j], t),
            decreases keys@.len() - i,
        {
            if self.has_dependency(keys[i], t) {
                return true;
            }
            i = i + 1;
        }
        proof {
            self.lemma_task_seq();
            if has_incoming(*self, t) {
                let u = choose|u: TaskId| #[trigger] self.edge(u, t);
                assert(keys@.contains(u));
                let j = choose|j: int| 0 <= j < keys@.len() && keys@[j] == u;
                assert(!self.edge(keys@[j], t));
            }
        }
        false
    }

    /// The tasks that nothing leads to, in increasing order of identifier.
    pub fn root_tasks(&self) -> (r: Vec<TaskId>)
        requires
            self.wf(),
        ensures
            r@ == self.task_seq().filter(root_fn(*self)),
    {
        let keys = self.facts.keys();
        let mut out: Vec<TaskId> = Vec::new();
        let mut i: usize = 0;
        while i < keys.len()
            invariant
                i <= keys@.len(),
                self.wf(),
                keys@ == self.task_seq(),
                out@ == keys@.subrange(0, i as int).filter(root_fn(*self)),
            decreases keys@.len() - i,
        {
            let t = keys[i];
            proof {
                assert(keys@.subrange(0, i + 1) == keys@.subrange(0, i as int).push(t));
                keys@.subrange(0, i as int).lemma_filter_push(t, root_fn(*self));
            }
            if !self.incoming(t) {
                out.push(t);
            }
            i = i + 1;
        }
        proof {
            assert(keys@.subrange(0, keys@.len() as int) == keys@);
        }
        out
    }

    /// The tasks that lead nowhere, in increasing order of identifier.
    pub fn leaf_tasks(&self) -> (r: Vec<TaskId>)
        ensures
            r@ == self.task_seq().filter(leaf_fn(*self)),
    {
        let keys = self.facts.keys();
        let mut out: Vec<TaskId> = Vec::new();
        let mut i: usize = 0;
        while i < keys.len()
            invariant
                i <= keys@.len(),
                keys@ == self.task_seq(),
                out@ == keys@.subrange(0, i as int).filter(leaf_fn(*self)),
            decreases keys@.len() - i,
        {
            let t = keys[i];
            proof {
                assert(keys@.subrange(0, i + 1) == keys@.subrange(0, i as int).push(t));
                keys@.subrange(0, i as int).lemma_filter_push(t, leaf_fn(*self));
            }
            let leaf = match self.facts.get(t) {
                Some(v) => v.len() == 0,
                None => true,
            };
            if leaf {
                out.push(t);
            }
            i = i + 1;
        }
        proof {
            assert(keys@.subrange(0, keys@.len() as int) == keys@);
        }
        out
    }

    /// The total number of predicates of the graph.
    pub fn dependency_count(&self) -> (r: usize)
        requires
            total_preds(*self, self.task_seq()) <= usize::MAX,
        ensures
            r == total_preds(*self, self.task_seq()),
    {
        let keys = self.facts.keys();
        let mut total: usize = 0;
        let mut i: usize = 0;
        while i < keys.len()
            invariant
                i <= keys@.len(),
                keys@ == self.task_seq(),
                total == total_preds(*self, keys@.subrange(0, i as int)),
                total_preds(*self, keys@) <= usize::MAX,
            decreases keys@.len() - i,
        {
            let t = keys[i];
            proof {
                assert(keys@.subrange(0, i + 1).drop_last() == keys@.subrange(0, i as int));
                lemma_total_preds_prefix(*self, keys@, i + 1);
            }
            let n = match self.facts.get(t) {
                Some(v) => v.len(),
                None => 0,
            };
            total = total + n;
            i = i + 1;
        }
        proof {
            assert(keys@.subrange(0, keys@.len() as int) == keys@);
        }
        total
    }
}

/// Filtering keeps a sequence strictly increasing.
pub proof fn lemma_filter_increasing(s: Seq<TaskId>, p: spec_fn(TaskId) -> bool)
    requires
        strictly_increasing(s),
    ensures
        strictly_increasing(s.filter(p)),
    decreases s.len(),
{
    if s.len() > 0 {
        let l = s.drop_last();
        let x = s.last();
        assert(s == l.push(x));
        assert(strictly_increasing(l));
        lemma_filter_increasing(l, p);
        l.lemma_filter_push(x, p);
        if p(x) {
            let f = l.filter(p);
            assert forall|i: int, j: int| 0 <= i < j < f.push(x).len() implies f.push(x)[i].0 < f.push(x)[j].0 by {
                if j == f.len() {
                    assert(f.contains(f[i]));
                    l.lemma_filter_contains_rev(p, f[i]);
                    let k = choose|k: int| 0 <= k < l.len() && l[k] == f[i];
                    assert(s[k] == l[k]);
                    assert(s[s.len() - 1] == x);
                }
            }
        }
    } else {
        assert(s.filter(p) =~= Seq::<TaskId>::empty()) by {
            s.lemma_filter_len(p);
        }
    }
}

/// The totals of the prefixes of `ts` grow with the prefix.
pub proof fn lemma_total_preds_prefix(g: Graph, ts: Seq<TaskId>, k: int)
    requires
        0 <= k <= ts.len(),
    ensures
        total_preds(g, ts.subrange(0, k)) <= total_preds(g, ts),
    decreases ts.len() - k,
{
    if k < ts.len() {
        lemma_total_preds_prefix(g, ts, k + 1);
        assert(ts.subrange(0, k + 1).drop_last() == ts.subrange(0, k));
    } else {
        assert(ts.subrange(0, k) == ts);
    }
}

} // verus!
