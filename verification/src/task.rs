use vstd::prelude::*;

use crate::id_map::strictly_increasing;
use crate::ids::TaskId;
use crate::time::Duration;

verus! {

/// Where a task starts: an offset after the end of a point of reference.
#[derive(Debug, Clone, Copy, PartialEq, Eq, Structural)]
pub struct TargetDate {
    /// The task whose end the offset is counted from.
    pub point_of_reference: TaskId,
    /// The offset.
    pub duration: Duration,
}

/// The range of a task: where it starts and how long it lasts.
#[derive(Debug, Clone, Copy, PartialEq, Eq, Structural)]
pub struct Range {
    pub start: TargetDate,
    pub end: Duration,
}

impl Range {
    /// A range starting `offset` after the end of `reference` and lasting `length`.
    pub fn new(reference: TaskId, offset: Duration, length: Duration) -> (r: Range)
        ensures
            r.start.point_of_reference == reference,
            r.start.duration == offset,
            r.end == length,
    {
        Range { start: TargetDate { point_of_reference: reference, duration: offset }, end: length }
    }
}

/// A task of a roadmap.
///
/// Its dependencies form a set, kept in increasing order of identifier.
#[derive(Debug)]
pub struct Task {
    id: TaskId,
    title: String,
    summary: String,
    range: Range,
    dependencies: Vec<TaskId>,
}

impl Task {
    #[verifier::type_invariant]
    spec fn inv(&self) -> bool {
        strictly_increasing(self.dependencies@)
    }

    /// The identifier of the task.
    pub closed spec fn spec_id(&self) -> TaskId {
        self.id
    }

    /// The title of the task.
    pub closed spec fn spec_title(&self) -> Seq<char> {
        self.title@
    }

    /// The summary of the task.
    pub closed spec fn spec_summary(&self) -> Seq<char> {
        self.summary@
    }

    /// The range of the task.
    pub closed spec fn spec_range(&self) -> Range {
        self.range
    }

    /// The dependencies of the task, in increasing order.
    pub closed spec fn deps(&self) -> Seq<TaskId> {
        self.dependencies@
    }

    /// A task with no dependencies.
    pub fn new(id: TaskId, title: String, summary: String, range: Range) -> (r: Task)
        ensures
            r.spec_id() == id,
            r.spec_title() == title@,
            r.spec_summary() == summary@,
            r.spec_range() == range,
            r.deps() == Seq::<TaskId>::empty(),
    {
        Task { id, title, summary, range, dependencies: Vec::new() }
    }

    /// The identifier of the task.
    pub fn id(&self) -> (r: TaskId)
        ensures
            r == self.spec_id(),
    {
        self.id
    }

    /// The title of the task.
    pub fn title(&self) -> (r: &String)
        ensures
            r@ == self.spec_title(),
    {
        &self.title
    }

    /// The summary of the task.
    pub fn summary(&self) -> (r: &String)
        ensures
            r@ == self.spec_summary(),
    {
        &self.summary
    }

    /// The range of the task.
    pub fn range(&self) -> (r: Range)
        ensures
            r == self.spec_range(),
    {
        self.range
    }

    /// The dependencies of the task, in increasing order.
    pub fn dependencies(&self) -> (r: &Vec<TaskId>)
        ensures
            r@ == self.deps(),
            strictly_increasing(r@),
    {
        proof { use_type_invariant(self); }
        &self.dependencies
    }

    /// Whether the task is a root: it depends on no other task.
    pub fn is_root(&self) -> (r: bool)
        ensures
            r == (self.deps().len() == 0),
    {
        self.dependencies.len() == 0
    }

    /// Adds `dep` to the dependencies; adding one already present changes nothing.
    pub fn add_dependency(&mut self, dep: TaskId)
        ensures
            final(self).spec_id() == old(self).spec_id(),
            final(self).spec_title() == old(self).spec_title(),
            final(self).spec_summary() == old(self).spec_summary(),
            final(self).spec_range() == old(self).spec_range(),
            forall|t: TaskId| #[trigger] final(self).deps().contains(t) <==> (old(self).deps().contains(t) || t == dep),
    {
        proof { use_type_invariant(&*self); }
        let out = sorted_insert(&self.dependencies, dep);
        self.dependencies = out;
    }
}

/// `v` with `dep` added, as a strictly increasing sequence.
fn sorted_insert(v: &Vec<TaskId>, dep: TaskId) -> (out: Vec<TaskId>)
    requires
        strictly_increasing(v@),
    ensures
        strictly_increasing(out@),
        forall|t: TaskId| #[trigger] out@.contains(t) <==> (v@.contains(t) || t == dep),
{
    let n = v.len();
    let mut out: Vec<TaskId> = Vec::new();
    let mut i: usize = 0;
    while i < n && v[i].0 < dep.0
        invariant
            i <= n,
            n == v@.len(),
            out@ == v@.subrange(0, i as int),
            forall|j: int| 0 <= j < i ==> v@[j].0 < dep.0,
        decreases n - i,
    {
        out.push(v[i]);
        i = i + 1;
    }
    let p = i;
    if i < n && v[i].0 == dep.0 {
        i = i + 1;
    }
    let q = i;
    out.push(dep);
    while i < n
        invariant
            p <= q <= i <= n,
            n == v@.len(),
            out@ == v@.subrange(0, p as int).push(dep) + v@.subrange(q as int, i as int),
        decreases n - i,
    {
        out.push(v[i]);
        proof {
            assert(out@ =~= v@.subrange(0, p as int).push(dep) + v@.subrange(q as int, i + 1));
        }
        i = i + 1;
    }
    proof {
        let a = v@.subrange(0, p as int);
        let b = v@.subrange(q as int, n as int);
        assert(forall|j: int| q <= j < n ==> v@[j].0 > dep.0) by {
            assert forall|j: int| q <= j < n implies v@[j].0 > dep.0 by {
                if p < n {
                    assert(v@[p as int].0 >= dep.0);
                }
            }
        }
        assert forall|x: int, y: int| 0 <= x < y < out@.len() implies out@[x].0 < out@[y].0 by {
            if y < p {
            } else if y == p {
            } else if x < p {
                assert(out@[y] == v@[q + (y - p - 1)]);
            } else if x == p {
                assert(out@[y] == v@[q + (y - p - 1)]);
            } else {
                assert(out@[x] == v@[q + (x - p - 1)]);
                assert(out@[y] == v@[q + (y - p - 1)]);
            }
        }
        assert forall|t: TaskId| #[trigger] out@.contains(t) <==> (v@.contains(t) || t == dep) by {
            if out@.contains(t) {
                let k = choose|k: int| 0 <= k < out@.len() && out@[k] == t;
                if k < p {
                    assert(v@[k] == t);
                } else if k > p {
                    assert(v@[q + (k - p - 1)] == t);
                }
            }
            if v@.contains(t) {
                let k = choose|k: int| 0 <= k < v@.len() && v@[k] == t;
                if k < p {
                    assert(out@[k] == t);
                } else if k >= q {
                    assert(out@[p + 1 + (k - q)] == t);
                } else {
                    assert(t == dep);
                }
            }
            if t == dep {
                assert(out@[p as int] == t);
            }
        }
    }
    out
}

} // verus!
