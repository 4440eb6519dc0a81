use vstd::prelude::*;

use crate::analysis::{cycle_cover, cyclic, has_cycle, is_scc, is_topo_order, on_cycle, same_scc};
use crate::graph::{leads_to_fn, Graph, GraphError};
use crate::id_map::IdMap;
use crate::ids::TaskId;
use crate::task::{TargetDate, Task};
use crate::time::{date_nanos, date_ok, effective_offset, lemma_add_duration, spec_add_duration, Date, Duration};

verus! {

/// Where a task lies in time.
#[derive(Debug, Clone, Copy, PartialEq, Eq, Structural, Hash)]
pub struct Span {
    pub start: Date,
    pub end: Date,
}

impl Span {
    /// The span from `start` to `end`.
    pub fn new(start: Date, end: Date) -> (r: Span)
        ensures
            r.start == start,
            r.end == end,
    {
        Span { start, end }
    }
}

/// Errors of the range algebra.
#[derive(Debug)]
pub enum RangeAlgebraError {
    /// An error of the graph.
    Graph(GraphError),
    /// The task has no stored data, or a dependency has no span.
    TaskNotFound { task_id: TaskId },
    /// The range of the task cannot be used.
    InvalidRange { task_id: TaskId },
    /// The task is placed after a task that has no span.
    InvalidReference { task_id: TaskId, reference_id: TaskId },
    /// A root task must be placed relative to itself.
    InvalidRootRange { task_id: TaskId },
    /// A dependency of the task ends after the task starts.
    TooEarlyForDependency { task_id: TaskId, dependency_id: TaskId },
    /// The graph has no root task.
    NoRootTasks,
    /// A task with dependencies is placed relative to itself.
    OnlyRootTasksCanSelfReference { task_id: TaskId, offset: Duration },
    /// Several errors, in the order in which the tasks were placed.
    Multiple { errors: Vec<RangeAlgebraError> },
    /// The graph has cycles; every task on a cycle lies in one of them.
    GraphHasCycles { cycles: Vec<Vec<TaskId>> },
    /// A start or end of the task falls outside the representable dates.
    InvalidDate { task_id: TaskId },
}

/// Why a task could not be placed.
#[derive(Debug, Clone, Copy, PartialEq, Eq, Structural)]
pub enum Fault {
    /// The task has no stored data.
    Missing,
    /// A task with dependencies is placed relative to itself.
    SelfReference,
    /// The task is placed relative to a task without a span.
    BadReference(TaskId),
    /// A date falls outside the representable range.
    BadDate,
    /// Some dependencies have no span or end too late.
    Dependencies,
}

/// The stored data of task `t`.
pub open spec fn task_of(g: Graph, t: TaskId) -> Task {
    g.store().task_map()[t]
}

/// The start that the rules give task `t`, with the spans `m` placed so far:
/// a root task starts its offset after the root date, any other task its
/// offset after the end of its point of reference.
pub open spec fn planned_start(g: Graph, root: Date, m: Map<TaskId, Span>, t: TaskId) -> Result<Date, Fault> {
    let task = task_of(g, t);
    let range = task.spec_range();
    if task.deps().len() == 0 {
        match spec_add_duration(root, range.start.duration) {
            Some(d) => Ok(d),
            None => Err(Fault::BadDate),
        }
    } else {
        let r = range.start.point_of_reference;
        if r == t {
            Err(Fault::SelfReference)
        } else if !m.contains_key(r) {
            Err(Fault::BadReference(r))
        } else {
            match spec_add_duration(m[r].end, range.start.duration) {
                Some(d) => Ok(d),
                None => Err(Fault::BadDate),
            }
        }
    }
}

/// A dependency is at fault when it has no span or ends after `start`.
pub open spec fn dep_fault_fn(m: Map<TaskId, Span>, start: Date) -> spec_fn(TaskId) -> bool {
    |d: TaskId| !m.contains_key(d) || date_nanos(m[d].end) > date_nanos(start)
}

/// The faulty dependencies of `t` for a start at `start`, in increasing
/// order, each with whether it has a span (and so ends too late).
pub open spec fn dep_faults(g: Graph, m: Map<TaskId, Span>, t: TaskId, start: Date) -> Seq<(TaskId, bool)> {
    g.task_seq().filter(leads_to_fn(g, t)).filter(dep_fault_fn(m, start)).map_values(|d: TaskId| (d, m.contains_key(d)))
}

/// The span of `t` by the rules, given the spans `m` placed so far.
pub open spec fn task_result(g: Graph, root: Date, m: Map<TaskId, Span>, t: TaskId) -> Result<Span, Fault> {
    if !g.store().task_map().contains_key(t) {
        Err(Fault::Missing)
    } else {
        match planned_start(g, root, m, t) {
            Err(f) => Err(f),
            Ok(s) => match spec_add_duration(s, task_of(g, t).spec_range().end) {
                None => Err(Fault::BadDate),
                Some(e) => if dep_faults(g, m, t, s).len() > 0 {
                    Err(Fault::Dependencies)
                } else {
                    Ok(Span { start: s, end: e })
                },
            },
        }
    }
}

/// A failure: the task, its fault, and the faulty dependencies.
pub type Failure = (TaskId, Fault, Seq<(TaskId, bool)>);

/// Placing the tasks of `o` in turn: the spans placed and the failures met.
pub open spec fn run(g: Graph, root: Date, o: Seq<TaskId>) -> (Map<TaskId, Span>, Seq<Failure>)
    decreases o.len(),
{
    if o.len() == 0 {
        (Map::empty(), Seq::empty())
    } else {
        let prev = run(g, root, o.drop_last());
        let t = o.last();
        match task_result(g, root, prev.0, t) {
            Ok(s) => (prev.0.insert(t, s), prev.1),
            Err(f) => (prev.0, prev.1.push((t, f, match planned_start(g, root, prev.0, t) {
                Ok(s) => dep_faults(g, prev.0, t, s),
                Err(_) => Seq::empty(),
            }))),
        }
    }
}

/// `e` reports the faulty dependency `d` of task `t`.
pub open spec fn describes_dep(e: RangeAlgebraError, t: TaskId, d: (TaskId, bool)) -> bool {
    if d.1 {
        e == (RangeAlgebraError::TooEarlyForDependency { task_id: t, dependency_id: d.0 })
    } else {
        e == (RangeAlgebraError::TaskNotFound { task_id: d.0 })
    }
}

/// `e` reports the failure `f`.
pub open spec fn describes(e: RangeAlgebraError, f: Failure) -> bool {
    match f.1 {
        Fault::Missing => e == (RangeAlgebraError::TaskNotFound { task_id: f.0 }),
        Fault::SelfReference => e matches RangeAlgebraError::OnlyRootTasksCanSelfReference { task_id, .. } && task_id == f.0,
        Fault::BadReference(r) => e == (RangeAlgebraError::InvalidReference { task_id: f.0, reference_id: r }),
        Fault::BadDate => e == (RangeAlgebraError::InvalidDate { task_id: f.0 }),
        Fault::Dependencies => e matches RangeAlgebraError::Multiple { errors }
            && errors@.len() == f.2.len() && forall|i: int| 0 <= i < f.2.len() ==> describes_dep(#[trigger] errors@[i], f.0, f.2[i]),
    }
}

/// `errors` reports the failures `fs`, one for one.
pub open spec fn describes_all(errors: Seq<RangeAlgebraError>, fs: Seq<Failure>) -> bool {
    errors.len() == fs.len() && forall|i: int| 0 <= i < fs.len() ==> describes(#[trigger] errors[i], fs[i])
}

/// The spans follow the rules: exactly the tasks of the graph have one, and
/// each is what the rules give it from the other spans, so that every
/// dependency ends before its dependent starts.
pub open spec fn schedule_holds(g: Graph, root: Date, m: Map<TaskId, Span>) -> bool {
    &&& forall|t: TaskId| #[trigger] m.contains_key(t) <==> g.has_task(t)
    &&& forall|t: TaskId| #[trigger] m.contains_key(t) ==> task_result(g, root, m, t) == Ok::<Span, Fault>(m[t])
}

/// A graph and the spans computed for its tasks.
pub struct PreRangeAlgebra {
    graph: Graph,
    spans: IdMap<Span>,
}

/// A graph and the spans of all its tasks, placed by the rules.
pub struct RangeAlgebra {
    graph: Graph,
    spans: IdMap<Span>,
}

impl PreRangeAlgebra {
    /// The graph.
    pub closed spec fn spec_graph(&self) -> Graph {
        self.graph
    }

    /// Prepares the placement of the tasks of `graph`.
    pub fn new(graph: Graph) -> (r: PreRangeAlgebra)
        ensures
            r.spec_graph() == graph,
    {
        PreRangeAlgebra { graph, spans: IdMap::new() }
    }

    /// Prepares the placement of the tasks of `graph`; the capacity is a hint only.
    pub fn with_capacity(graph: Graph, capacity: usize) -> (r: PreRangeAlgebra)
        ensures
            r.spec_graph() == graph,
    {
        PreRangeAlgebra { graph, spans: IdMap::new() }
    }

    /// The graph.
    pub fn graph(&self) -> (r: &Graph)
        ensures
            *r == self.spec_graph(),
    {
        &self.graph
    }
}

/// A span between representable dates, not ending before it starts.
pub open spec fn span_ok(s: Span) -> bool {
    date_ok(s.start) && date_ok(s.end) && date_nanos(s.start) <= date_nanos(s.end)
}

/// The spans cover the tasks of an acyclic graph, each a proper span.
pub open spec fn algebra_ok(g: Graph, m: Map<TaskId, Span>) -> bool {
    &&& g.wf()
    &&& !has_cycle(g)
    &&& forall|t: TaskId| #[trigger] m.contains_key(t) <==> g.has_task(t)
    &&& forall|t: TaskId| #[trigger] m.contains_key(t) ==> span_ok(m[t])
}

/// Spans placed by the rules are proper spans.
pub proof fn lemma_schedule_spans_ok(g: Graph, root: Date, m: Map<TaskId, Span>, t: TaskId)
    requires
        task_result(g, root, m, t) is Ok,
    ensures
        span_ok(task_result(g, root, m, t)->Ok_0),
{
    let s = planned_start(g, root, m, t)->Ok_0;
    let task = task_of(g, t);
    if task.deps().len() == 0 {
        lemma_add_duration(root, task.spec_range().start.duration);
    } else {
        let r = task.spec_range().start.point_of_reference;
        lemma_add_duration(m[r].end, task.spec_range().start.duration);
    }
    lemma_add_duration(s, task.spec_range().end);
}

impl RangeAlgebra {
    #[verifier::type_invariant]
    spec fn inv(&self) -> bool {
        algebra_ok(self.graph, self.spans@)
    }

    /// The graph.
    pub closed spec fn spec_graph(&self) -> Graph {
        self.graph
    }

    /// The spans cover the tasks of an acyclic graph, each a proper span.
    pub(crate) fn check(&self)
        ensures
            algebra_ok(self.spec_graph(), self.span_map()),
    {
        proof { use_type_invariant(self); }
    }

    /// The spans, by task.
    pub closed spec fn span_map(&self) -> Map<TaskId, Span> {
        self.spans@
    }

    /// The spans in increasing order of task.
    pub closed spec fn span_keys(&self) -> Seq<TaskId> {
        self.spans.key_seq()
    }

    /// The span keys come in increasing order and are exactly the tasks with a span.
    pub proof fn lemma_span_keys(&self)
        ensures
            crate::id_map::strictly_increasing(self.span_keys()),
            forall|t: TaskId| #[trigger] self.span_keys().contains(t) <==> self.span_map().contains_key(t),
            self.span_keys().len() <= 256,
    {
        self.spans.lemma_key_seq();
    }

    /// The graph.
    pub fn graph(&self) -> (r: &Graph)
        ensures
            *r == self.spec_graph(),
    {
        &self.graph
    }

    /// The span of `task_id`, if it has one.
    pub fn span(&self, task_id: TaskId) -> (r: Option<&Span>)
        ensures
            r matches Some(s) ==> self.span_map().contains_key(task_id) && *s == self.span_map()[task_id],
            r is None ==> !self.span_map().contains_key(task_id),
    {
        self.spans.get(task_id)
    }

    /// The tasks with a span, in increasing order.
    pub fn task_ids(&self) -> (r: Vec<TaskId>)
        ensures
            r@ == self.span_keys(),
            forall|t: TaskId| #[trigger] r@.contains(t) <==> self.span_map().contains_key(t),
            r@.len() <= 256,
            crate::id_map::strictly_increasing(r@),
    {
        proof { self.spans.lemma_key_seq(); }
        self.spans.keys()
    }

    /// The number of tasks with a span.
    pub fn task_count(&self) -> (r: usize)
        ensures
            r == self.span_keys().len(),
    {
        self.spans.len()
    }

    /// Whether `task_id` has a span.
    pub fn has_span(&self, task_id: TaskId) -> (r: bool)
        ensures
            r == self.span_map().contains_key(task_id),
    {
        self.spans.contains_key(task_id)
    }

    /// The stored data of `task_id`, if any.
    pub fn task(&self, task_id: TaskId) -> (r: Option<&Task>)
        ensures
            r matches Some(t) ==> self.spec_graph().store().task_map().contains_key(task_id)
                && *t == self.spec_graph().store().task_map()[task_id],
            r is None ==> !self.spec_graph().store().task_map().contains_key(task_id),
    {
        self.graph.task(task_id)
    }
}

/// The failure record of `t` when the rules fail on it.
pub open spec fn failure_of(g: Graph, root: Date, m: Map<TaskId, Span>, t: TaskId, f: Fault) -> Failure {
    (t, f, match planned_start(g, root, m, t) {
        Ok(s) => dep_faults(g, m, t, s),
        Err(_) => Seq::empty(),
    })
}

/// What placing the tasks in the order `o` yields: the spans when every task
/// was placed, the failures otherwise.
pub open spec fn outcome(g: Graph, root: Date, o: Seq<TaskId>, r: Result<RangeAlgebra, RangeAlgebraError>) -> bool {
    let (m, fs) = run(g, root, o);
    if fs.len() == 0 {
        r matches Ok(ra) && ra.span_map() == m && ra.spec_graph() == g
    } else {
        r matches Err(RangeAlgebraError::Multiple { errors }) && describes_all(errors@, fs)
    }
}

/// Some sequence of `cs` holds `t`.
pub open spec fn on_cycle_witness(g: Graph, cs: Seq<Vec<TaskId>>, t: TaskId) -> bool {
    exists|i: int| 0 <= i < cs.len() && (#[trigger] cs[i])@.contains(t)
}

/// Whether `r` is the error for a graph with cycles.
pub open spec fn is_cycle_error(r: Result<RangeAlgebra, RangeAlgebraError>) -> bool {
    r matches Err(RangeAlgebraError::GraphHasCycles { .. })
}

impl PreRangeAlgebra {
    /// The start of a task with dependencies: `target`'s offset after the end
    /// of its point of reference.
    fn compute_non_root_start_date(&self, target: TargetDate, task_id: TaskId) -> (r: Result<Date, RangeAlgebraError>)
        ensures
            target.point_of_reference == task_id ==> (r matches Err(RangeAlgebraError::OnlyRootTasksCanSelfReference { task_id: t, offset })
                && t == task_id && offset == target.duration),
            target.point_of_reference != task_id && !self.spans@.contains_key(target.point_of_reference)
                ==> r == Err::<Date, RangeAlgebraError>(RangeAlgebraError::InvalidReference { task_id, reference_id: target.point_of_reference }),
            target.point_of_reference != task_id && self.spans@.contains_key(target.point_of_reference) ==>
                match spec_add_duration(self.spans@[target.point_of_reference].end, target.duration) {
                    Some(d) => r == Ok::<Date, RangeAlgebraError>(d),
                    None => r == Err::<Date, RangeAlgebraError>(RangeAlgebraError::InvalidDate { task_id }),
                },
    {
        let reference_id = target.point_of_reference;
        if reference_id == task_id {
            return Err(RangeAlgebraError::OnlyRootTasksCanSelfReference { task_id, offset: target.duration });
        }
        match self.spans.get(reference_id) {
            None => Err(RangeAlgebraError::InvalidReference { task_id, reference_id }),
            Some(span) => match span.end.checked_add(target.duration) {
                Some(d) => Ok(d),
                None => Err(RangeAlgebraError::InvalidDate { task_id }),
            },
        }
    }

    /// Checks that every dependency of `task_id` has a span that ends no
    /// later than `start`; reports each that does not, in increasing order.
    fn validate_dependencies(&self, task_id: TaskId, start: Date) -> (r: Result<(), RangeAlgebraError>)
        requires
            self.graph.wf(),
        ensures
            r is Ok <==> dep_faults(self.graph, self.spans@, task_id, start).len() == 0,
            r matches Err(e) ==> e matches RangeAlgebraError::Multiple { errors }
                && errors@.len() == dep_faults(self.graph, self.spans@, task_id, start).len()
                && forall|i: int| 0 <= i < errors@.len() ==> describes_dep(#[trigger] errors@[i], task_id,
                    dep_faults(self.graph, self.spans@, task_id, start)[i]),
    {
        let deps = self.graph.get_dependencies(task_id);
        let ghost m = self.spans@;
        let ghost pf = dep_fault_fn(m, start);
        let mut errors: Vec<RangeAlgebraError> = Vec::new();
        let mut k: usize = 0;
        while k < deps.len()
            invariant
                k <= deps@.len(),
                m == self.spans@,
                pf == dep_fault_fn(m, start),
                errors@.len() == deps@.subrange(0, k as int).filter(pf).len(),
                forall|i: int| 0 <= i < errors@.len() ==> describes_dep(#[trigger] errors@[i], task_id,
                    (deps@.subrange(0, k as int).filter(pf)[i], m.contains_key(deps@.subrange(0, k as int).filter(pf)[i]))),
            decreases deps@.len() - k,
        {
            let d = deps[k];
            let ghost before = deps@.subrange(0, k as int).filter(pf);
            proof {
                assert(deps@.subrange(0, k + 1) == deps@.subrange(0, k as int).push(d));
                deps@.subrange(0, k as int).lemma_filter_push(d, pf);
            }
            let ghost e0 = errors@;
            match self.spans.get(d) {
                None => {
                    errors.push(RangeAlgebraError::TaskNotFound { task_id: d });
                },
                Some(sp) => {
                    if sp.end.is_after(&start) {
                        errors.push(RangeAlgebraError::TooEarlyForDependency { task_id, dependency_id: d });
                    }
                },
            }
            proof {
                let after = deps@.subrange(0, k + 1).filter(pf);
                assert forall|i: int| 0 <= i < errors@.len() implies describes_dep(#[trigger] errors@[i], task_id,
                    (after[i], m.contains_key(after[i]))) by {
                    if i < e0.len() {
                        assert(errors@[i] == e0[i]);
                        assert(after[i] == before[i]);
                    }
                }
            }
            k = k + 1;
        }
        proof {
            assert(deps@.subrange(0, deps@.len() as int) == deps@);
        }
        if errors.len() == 0 {
            Ok(())
        } else {
            Err(RangeAlgebraError::Multiple { errors })
        }
    }

    /// Places `task_id` by the rules; on success its span joins the others.
    fn compute_task_span(&mut self, task_id: TaskId, root_date: Date) -> (r: Result<(), RangeAlgebraError>)
        requires
            old(self).graph.wf(),
        ensures
            final(self).graph == old(self).graph,
            match task_result(old(self).graph, root_date, old(self).spans@, task_id) {
                Ok(sp) => r is Ok && final(self).spans@ == old(self).spans@.insert(task_id, sp),
                Err(f) => r matches Err(e) && final(self).spans@ == old(self).spans@
                    && describes(e, failure_of(old(self).graph, root_date, old(self).spans@, task_id, f)),
            },
    {
        let ghost g = self.graph;
        let ghost m = self.spans@;
        let task = match self.graph.task(task_id) {
            Some(t) => t,
            None => {
                return Err(RangeAlgebraError::TaskNotFound { task_id });
            },
        };
        let range = task.range();
        let start_date = if task.is_root() {
            match root_date.checked_add(range.start.duration) {
                Some(d) => d,
                None => {
                    return Err(RangeAlgebraError::InvalidDate { task_id });
                },
            }
        } else {
            match self.compute_non_root_start_date(range.start, task_id) {
                Ok(d) => d,
                Err(e) => {
                    return Err(e);
                },
            }
        };
        assert(planned_start(g, root_date, m, task_id) == Ok::<Date, Fault>(start_date));
        let end_date = match start_date.checked_add(range.end) {
            Some(d) => d,
            None => {
                return Err(RangeAlgebraError::InvalidDate { task_id });
            },
        };
        match self.validate_dependencies(task_id, start_date) {
            Ok(()) => {},
            Err(e) => {
                return Err(e);
            },
        }
        let _ = self.spans.insert(task_id, Span { start: start_date, end: end_date });
        Ok(())
    }

    /// Places every task of the graph, in a topological order.
    ///
    /// A graph with cycles is refused with its cycles. Otherwise each task
    /// is placed in turn: a root task its offset after `root_date`, any
    /// other its offset after the end of its point of reference, and each
    /// lasts its duration; every dependency must end by the time its
    /// dependent starts. The failures of all tasks are reported together.
    pub fn compute(self, root_date: Date) -> (r: Result<RangeAlgebra, RangeAlgebraError>)
        requires
            self.spec_graph().wf(),
        ensures
            has_cycle(self.spec_graph()) <==> is_cycle_error(r),
            r matches Err(RangeAlgebraError::GraphHasCycles { cycles }) ==> cycles@.len() > 0 && cycle_cover(self.spec_graph(), cycles@),
            r matches Err(RangeAlgebraError::GraphHasCycles { cycles }) ==> forall|i: int| 0 <= i < cycles@.len()
                ==> is_scc(self.spec_graph(), #[trigger] cycles@[i]@) && cyclic(self.spec_graph(), cycles@[i]@),
            r matches Err(RangeAlgebraError::GraphHasCycles { cycles }) ==> forall|i: int, j: int| 0 <= i < j < cycles@.len()
                ==> !same_scc(self.spec_graph(), (#[trigger] cycles@[i])@[0], (#[trigger] cycles@[j])@[0]),
            !has_cycle(self.spec_graph()) ==> exists|o: Seq<TaskId>| is_topo_order(self.spec_graph(), o) && #[trigger] outcome(self.spec_graph(), root_date, o, r),
            r matches Ok(ra) ==> ra.spec_graph() == self.spec_graph() && schedule_holds(self.spec_graph(), root_date, ra.span_map()),
    {
        let mut this = PreRangeAlgebra { graph: self.graph, spans: IdMap::new() };
        let ghost g = this.graph;
        let cycles = match this.graph.find_cycles() {
            Ok(c) => c,
            Err(e) => {
                return Err(RangeAlgebraError::Graph(e));
            },
        };
        if cycles.len() > 0 {
            proof {
                let c0 = cycles@[0]@;
                assert(c0.len() >= 1);
                assert(c0.contains(c0[0]));
                assert(cycles@[0]@.contains(c0[0]));
                assert(on_cycle_witness(g, cycles@, c0[0]));
                assert(cycle_cover(g, cycles@));
                assert(on_cycle(g, c0[0]));
            }
            return Err(RangeAlgebraError::GraphHasCycles { cycles });
        }
        proof {
            if has_cycle(g) {
                let u = choose|u: TaskId| #[trigger] on_cycle(g, u);
                assert(cycle_cover(g, cycles@));
                assert(on_cycle(g, u));
            }
        }
        let order = match this.graph.topological_sort() {
            Ok(o) => o,
            Err(e) => {
                return Err(RangeAlgebraError::Graph(e));
            },
        };
        let mut errors: Vec<RangeAlgebraError> = Vec::new();
        let mut i: usize = 0;
        while i < order.len()
            invariant
                i <= order@.len(),
                this.graph == g,
                g.wf(),
                (this.spans@, run(g, root_date, order@.subrange(0, i as int)).1) == run(g, root_date, order@.subrange(0, i as int)),
                describes_all(errors@, run(g, root_date, order@.subrange(0, i as int)).1),
            decreases order@.len() - i,
        {
            let t = order[i];
            let ghost p = order@.subrange(0, i as int);
            let ghost prev = run(g, root_date, p);
            proof {
                assert(order@.subrange(0, i + 1).drop_last() == p);
                assert(order@.subrange(0, i + 1).last() == t);
            }
            let res = this.compute_task_span(t, root_date);
            match res {
                Ok(()) => {},
                Err(e) => {
                    let ghost e0 = errors@;
                    errors.push(e);
                    proof {
                        assert forall|j: int| 0 <= j < errors@.len() implies describes(#[trigger] errors@[j],
                            run(g, root_date, order@.subrange(0, i + 1)).1[j]) by {
                            if j < e0.len() {
                                assert(errors@[j] == e0[j]);
                            }
                        }
                    }
                },
            }
            i = i + 1;
        }
        proof {
            assert(order@.subrange(0, order@.len() as int) == order@);
        }
        if errors.len() == 0 {
            proof {
                lemma_run_schedule(g, root_date, order@);
                let m = this.spans@;
                assert forall|t: TaskId| #[trigger] m.contains_key(t) implies span_ok(m[t]) by {
                    lemma_schedule_spans_ok(g, root_date, m, t);
                }
                if has_cycle(g) {
                    let u = choose|u: TaskId| #[trigger] on_cycle(g, u);
                    assert(cycle_cover(g, cycles@));
                    assert(on_cycle(g, u));
                }
                assert(algebra_ok(g, m));
                assert(outcome(g, root_date, order@, Ok(RangeAlgebra { graph: this.graph, spans: this.spans })));
            }
            Ok(RangeAlgebra { graph: this.graph, spans: this.spans })
        } else {
            let r = Err(RangeAlgebraError::Multiple { errors });
            proof {
                assert(outcome(g, root_date, order@, r));
            }
            r
        }
    }
}

/// Two tests that agree on every entry of `s` keep the same entries.
pub proof fn lemma_filter_agree<A>(s: Seq<A>, p1: spec_fn(A) -> bool, p2: spec_fn(A) -> bool)
    requires
        forall|i: int| 0 <= i < s.len() ==> p1(s[i]) == p2(s[i]),
    ensures
        s.filter(p1) == s.filter(p2),
    decreases s.len(),
{
    if s.len() > 0 {
        let l = s.drop_last();
        lemma_filter_agree(l, p1, p2);
        assert(s == l.push(s.last()));
        l.lemma_filter_push(s.last(), p1);
        l.lemma_filter_push(s.last(), p2);
    } else {
        assert(s.filter(p1) =~= Seq::<A>::empty()) by {
            s.lemma_filter_len(p1);
        }
        assert(s.filter(p2) =~= Seq::<A>::empty()) by {
            s.lemma_filter_len(p2);
        }
    }
}

/// An empty filter rejects every entry.
pub proof fn lemma_filter_empty<A>(s: Seq<A>, p: spec_fn(A) -> bool, i: int)
    requires
        s.filter(p).len() == 0,
        0 <= i < s.len(),
    ensures
        !p(s[i]),
{
    if p(s[i]) {
        s.lemma_filter_contains(p, i);
        assert(s.filter(p).contains(s[i]));
    }
}

/// The rules give a placed task the same span from any larger set of spans
/// that agrees with the one it was placed from.
pub proof fn lemma_task_result_frame(g: Graph, root: Date, m1: Map<TaskId, Span>, m2: Map<TaskId, Span>, t: TaskId)
    requires
        task_result(g, root, m1, t) is Ok,
        forall|x: TaskId| #[trigger] m1.contains_key(x) ==> m2.contains_key(x) && m2[x] == m1[x],
    ensures
        task_result(g, root, m2, t) == task_result(g, root, m1, t),
{
    let task = task_of(g, t);
    if task.deps().len() != 0 {
        let r = task.spec_range().start.point_of_reference;
        assert(m1.contains_key(r));
    }
    assert(planned_start(g, root, m2, t) == planned_start(g, root, m1, t));
    let st = planned_start(g, root, m1, t)->Ok_0;
    let deps = g.task_seq().filter(leads_to_fn(g, t));
    assert forall|i: int| 0 <= i < deps.len() implies dep_fault_fn(m1, st)(deps[i]) == dep_fault_fn(m2, st)(deps[i]) by {
        lemma_filter_empty(deps, dep_fault_fn(m1, st), i);
        assert(m1.contains_key(deps[i]));
    }
    lemma_filter_agree(deps, dep_fault_fn(m1, st), dep_fault_fn(m2, st));
    assert(dep_faults(g, m2, t, st).len() == dep_faults(g, m1, t, st).len());
}

/// Placing a prefix of an order meets no more failures than placing the whole.
pub proof fn lemma_run_prefix_failures(g: Graph, root: Date, o: Seq<TaskId>, k: int)
    requires
        0 <= k <= o.len(),
    ensures
        run(g, root, o.subrange(0, k)).1.len() <= run(g, root, o).1.len(),
    decreases o.len() - k,
{
    if k < o.len() {
        lemma_run_prefix_failures(g, root, o, k + 1);
        assert(o.subrange(0, k + 1).drop_last() == o.subrange(0, k));
    } else {
        assert(o.subrange(0, k) == o);
    }
}

/// Placing a prefix of a topological order without failure gives every task
/// of the prefix the span the rules give it.
#[verifier::spinoff_prover]
#[verifier::rlimit(40)]
pub proof fn lemma_run_prefix_schedule(g: Graph, root: Date, o: Seq<TaskId>, k: int)
    requires
        is_topo_order(g, o),
        0 <= k <= o.len(),
        run(g, root, o.subrange(0, k)).1.len() == 0,
    ensures
        forall|t: TaskId| #[trigger] run(g, root, o.subrange(0, k)).0.contains_key(t) <==> o.subrange(0, k).contains(t),
        forall|t: TaskId| #[trigger] run(g, root, o.subrange(0, k)).0.contains_key(t)
            ==> task_result(g, root, run(g, root, o.subrange(0, k)).0, t) == Ok::<Span, Fault>(run(g, root, o.subrange(0, k)).0[t]),
    decreases k,
{
    let p = o.subrange(0, k);
    let m = run(g, root, p).0;
    if k == 0 {
        assert(m == Map::<TaskId, Span>::empty());
        assert forall|t: TaskId| #[trigger] m.contains_key(t) <==> p.contains(t) by {
            if p.contains(t) {
                let i = choose|i: int| 0 <= i < p.len() && p[i] == t;
            }
        }
    } else {
        let q = o.subrange(0, k - 1);
        assert(p.drop_last() == q);
        let t = o[k - 1];
        assert(p.last() == t);
        let mq = run(g, root, q).0;
        let res = task_result(g, root, mq, t);
        if res is Err {
            assert(run(g, root, p).1.len() == run(g, root, q).1.len() + 1);
        }
        assert(res is Ok);
        assert(run(g, root, q).1.len() == 0);
        lemma_run_prefix_schedule(g, root, o, k - 1);
        let sp = res->Ok_0;
        assert(m == mq.insert(t, sp));
        assert(!q.contains(t)) by {
            if q.contains(t) {
                let i = choose|i: int| 0 <= i < q.len() && q[i] == t;
                assert(o[i] == o[k - 1]);
            }
        }
        assert(!mq.contains_key(t));
        assert forall|x: TaskId| #[trigger] m.contains_key(x) <==> p.contains(x) by {
            if p.contains(x) {
                let i = choose|i: int| 0 <= i < p.len() && p[i] == x;
                if i < k - 1 {
                    assert(q[i] == x);
                }
            }
            if q.contains(x) {
                let i = choose|i: int| 0 <= i < q.len() && q[i] == x;
                assert(p[i] == x);
            }
            if x == t {
                assert(p[k - 1] == x);
            }
        }
        assert forall|x: TaskId| #[trigger] m.contains_key(x) implies task_result(g, root, m, x) == Ok::<Span, Fault>(m[x]) by {
            assert forall|y: TaskId| #[trigger] mq.contains_key(y) implies m.contains_key(y) && m[y] == mq[y] by {}
            if x == t {
                lemma_task_result_frame(g, root, mq, m, t);
            } else {
                assert(mq.contains_key(x));
                lemma_task_result_frame(g, root, mq, m, x);
            }
        }
    }
}

/// Placing all tasks in a topological order without failure gives every task
/// of the graph the span that the rules give it.
pub proof fn lemma_run_schedule(g: Graph, root: Date, o: Seq<TaskId>)
    requires
        is_topo_order(g, o),
        run(g, root, o).1.len() == 0,
    ensures
        schedule_holds(g, root, run(g, root, o).0),
{
    assert(o.subrange(0, o.len() as int) == o);
    lemma_run_prefix_schedule(g, root, o, o.len() as int);
}

} // verus!
