use vstd::prelude::*;

use crate::id_map::IdMap;
use crate::ids::{DependencyId, TaskId};
use crate::task::Task;

verus! {

/// A dependency between two tasks.
#[derive(Debug, Clone, Copy, PartialEq, Eq, Structural)]
pub struct Dependency {
    pub id: DependencyId,
}

/// The storage of the full tasks and dependencies of a graph.
pub struct Arena {
    tasks: IdMap<Task>,
    dependencies: Vec<Dependency>,
}

/// No two entries of `s` share an identifier.
pub open spec fn unique_ids(s: Seq<Dependency>) -> bool {
    forall|i: int, j: int| 0 <= i < j < s.len() ==> s[i].id != s[j].id
}

impl Arena {
    /// The tasks stored, by identifier.
    pub closed spec fn task_map(&self) -> Map<TaskId, Task> {
        self.tasks@
    }

    /// The dependencies stored, in the order they were first added.
    pub closed spec fn dependency_seq(&self) -> Seq<Dependency> {
        self.dependencies@
    }

    /// The dependencies stored under distinct identifiers.
    pub open spec fn wf(&self) -> bool {
        unique_ids(self.dependency_seq())
    }

    /// An empty arena.
    pub fn new() -> (r: Arena)
        ensures
            r.task_map() == Map::<TaskId, Task>::empty(),
            r.dependency_seq() == Seq::<Dependency>::empty(),
            r.wf(),
    {
        Arena { tasks: IdMap::new(), dependencies: Vec::new() }
    }

    /// An empty arena; the capacity is a hint only.
    pub fn with_capacity(capacity: usize) -> (r: Arena)
        ensures
            r.task_map() == Map::<TaskId, Task>::empty(),
            r.dependency_seq() == Seq::<Dependency>::empty(),
            r.wf(),
    {
        Arena { tasks: IdMap::new(), dependencies: Vec::with_capacity(capacity) }
    }

    /// Stores a task under its identifier, replacing any task stored there.
    pub fn add_task(&mut self, task: Task)
        ensures
            final(self).task_map() == old(self).task_map().insert(task.spec_id(), task),
            final(self).dependency_seq() == old(self).dependency_seq(),
    {
        let id = task.id();
        let _ = self.tasks.insert(id, task);
    }

    /// Stores a dependency under its identifier, replacing any stored there.
    pub fn add_dependency(&mut self, dependency: Dependency)
        requires
            old(self).wf(),
        ensures
            final(self).wf(),
            final(self).task_map() == old(self).task_map(),
            forall|d: Dependency| #[trigger] final(self).dependency_seq().contains(d) <==> (d == dependency || (old(self).dependency_seq().contains(d) && d.id != dependency.id)),
    {
        let n = self.dependencies.len();
        let mut i: usize = 0;
        let mut found = false;
        while i < n
            invariant
                n == self.dependencies@.len(),
                i <= n,
                found ==> i < n && self.dependencies@[i as int].id == dependency.id,
                !found ==> forall|j: int| 0 <= j < i ==> self.dependencies@[j].id != dependency.id,
            ensures
                found || i == n,
                found ==> i < n && self.dependencies@[i as int].id == dependency.id,
                !found ==> forall|j: int| 0 <= j < i ==> self.dependencies@[j].id != dependency.id,
            decreases n - i,
        {
            if self.dependencies[i].id == dependency.id {
                found = true;
                break;
            }
            i = i + 1;
        }
        let ghost s0 = self.dependencies@;
        assert(s0 == old(self).dependency_seq());
        if found {
            self.dependencies.set(i, dependency);
        } else {
            self.dependencies.push(dependency);
        }
        proof {
            let s = self.dependencies@;
            assert forall|a: int, b: int| 0 <= a < b < s.len() implies s[a].id != s[b].id by {
                assert(unique_ids(s0));
                if found {
                    assert(s0[i as int].id == dependency.id);
                    if a == i {
                        assert(s0[a].id != s0[b].id);
                    } else if b == i {
                        assert(s0[a].id != s0[b].id);
                    } else {
                        assert(s[a] == s0[a] && s[b] == s0[b]);
                    }
                } else {
                    if b == n {
                        assert(s0[a].id != dependency.id);
                    } else {
                        assert(s[a] == s0[a] && s[b] == s0[b]);
                    }
                }
            }
            assert forall|d: Dependency| #[trigger] s.contains(d) <==> (d == dependency || (s0.contains(d) && d.id != dependency.id)) by {
                if s0.contains(d) && d.id != dependency.id {
                    let k = choose|k: int| 0 <= k < s0.len() && s0[k] == d;
                    assert(s[k] == d);
                }
                if d == dependency {
                    if found { assert(s[i as int] == d); } else { assert(s[n as int] == d); }
                }
                if s.contains(d) {
                    let k = choose|k: int| 0 <= k < s.len() && s[k] == d;
                    if k < n && !(found && k == i) {
                        assert(s0[k] == d);
                    }
                }
            }
        }
    }

    /// The stored task with identifier `id`, if any.
    pub fn task(&self, id: TaskId) -> (r: Option<&Task>)
        ensures
            r matches Some(t) ==> self.task_map().contains_key(id) && *t == self.task_map()[id],
            r is None ==> !self.task_map().contains_key(id),
    {
        self.tasks.get(id)
    }

    /// The identifiers of the stored tasks, in increasing order.
    pub fn task_ids(&self) -> (r: Vec<TaskId>)
        ensures
            forall|t: TaskId| #[trigger] r@.contains(t) <==> self.task_map().contains_key(t),
            crate::id_map::strictly_increasing(r@),
    {
        proof { self.tasks.lemma_key_seq(); }
        self.tasks.keys()
    }

    /// The stored dependency with identifier `id`, if any.
    pub fn dependency(&self, id: DependencyId) -> (r: Option<&Dependency>)
        requires
            self.wf(),
        ensures
            r matches Some(d) ==> d.id == id && self.dependency_seq().contains(*d),
            r is None ==> forall|d: Dependency| #[trigger] self.dependency_seq().contains(d) ==> d.id != id,
    {
        let n = self.dependencies.len();
        let mut i: usize = 0;
        while i < n
            invariant
                n == self.dependencies@.len(),
                i <= n,
                forall|j: int| 0 <= j < i ==> self.dependencies@[j].id != id,
            decreases n - i,
        {
            if self.dependencies[i].id == id {
                proof { assert(self.dependencies@.contains(self.dependencies@[i as int])); }
                return Some(&self.dependencies[i]);
            }
            i = i + 1;
        }
        None
    }
}

} // verus!
