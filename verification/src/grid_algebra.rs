use vstd::prelude::*;

use crate::graph::Graph;
use crate::id_map::{strictly_increasing, IdMap};
use crate::ids::TaskId;
use crate::range_algebra::{algebra_ok, span_ok, RangeAlgebra, Span};
use crate::stretch::{largest_unit_within, next_down, ranges_overlap, unit_seconds, Stretch, StretchRange, StretchUnit};
use crate::time::{lemma_secs_monotone, Date, MAX_TIMESTAMP, MIN_TIMESTAMP};
use crate::traversal::{firsts, lemma_reaches_refl, lemma_reaches_step, reaches};
use crate::analysis::lemma_reaches_trans;

verus! {

/// The identifier of a lane of the grid.
#[derive(Debug, Clone, Copy, PartialEq, Eq, Structural, Hash, PartialOrd, Ord)]
pub struct LaneId(pub u8);

impl LaneId {
    /// The lane with the given position.
    pub fn new(id: u8) -> (r: LaneId)
        ensures
            r.0 == id,
    {
        LaneId(id)
    }

    /// The position of the lane.
    pub fn value(&self) -> (r: u8)
        ensures
            r == self.0,
    {
        self.0
    }
}

/// The place of a task in the grid: its stretch of time and its lane.
#[derive(Debug, Clone, Copy, PartialEq, Eq, Structural, Hash, PartialOrd, Ord)]
pub struct Cell {
    pub stretch: Stretch,
    pub lane: LaneId,
}

impl Cell {
    /// The cell of `stretch` in `lane`.
    pub fn new(stretch: Stretch, lane: LaneId) -> (r: Cell)
        ensures
            r.stretch == stretch,
            r.lane == lane,
    {
        Cell { stretch, lane }
    }

    /// The stretch of the cell.
    pub fn stretch(&self) -> (r: &Stretch)
        ensures
            *r == self.stretch,
    {
        &self.stretch
    }

    /// The lane of the cell.
    pub fn lane(&self) -> (r: &LaneId)
        ensures
            *r == self.lane,
    {
        &self.lane
    }

    /// The position of the lane of the cell.
    pub fn lane_id(&self) -> (r: u8)
        ensures
            r == self.lane.0,
    {
        self.lane.0
    }
}

/// Errors of the grid algebra.
#[derive(Debug, Clone, Copy, PartialEq, Eq, Structural)]
pub enum GridAlgebraError {
    /// A task has no stretch.
    TaskNotFound { task_id: TaskId },
    /// The range algebra has no task.
    NoTasks,
    /// A task starts at the last unit the grid can hold, so it has no room.
    InvalidTimeRange { start: Date, end: Date },
    /// A task received no lane.
    LaneAssignmentFailed { task_id: TaskId },
}

/// The length of a span in whole seconds.
pub open spec fn span_secs(s: Span) -> int {
    s.end.secs - s.start.secs
}

/// The total length in whole seconds of the spans of `ks`.
pub open spec fn total_secs(m: Map<TaskId, Span>, ks: Seq<TaskId>) -> int
    decreases ks.len(),
{
    if ks.len() == 0 {
        0
    } else {
        total_secs(m, ks.drop_last()) + span_secs(m[ks.last()])
    }
}

/// The earliest start, in whole seconds, of the spans of `ks`.
pub open spec fn earliest_start(m: Map<TaskId, Span>, ks: Seq<TaskId>) -> int
    decreases ks.len(),
{
    if ks.len() == 0 {
        0
    } else if ks.len() == 1 {
        m[ks[0]].start.secs as int
    } else {
        let rest = earliest_start(m, ks.drop_last());
        let here = m[ks.last()].start.secs as int;
        if here < rest { here } else { rest }
    }
}

/// The unit of the grid: one step below the largest unit no longer than the
/// average length of the spans.
pub open spec fn grid_unit(m: Map<TaskId, Span>, ks: Seq<TaskId>) -> StretchUnit {
    next_down(largest_unit_within((total_secs(m, ks) / (ks.len() as int)) as u64))
}

/// The first unit of a span in a grid that starts at `origin`, cut to a byte.
pub open spec fn start_unit(s: Span, origin: int, unit: StretchUnit) -> u8 {
    ((s.start.secs - origin) / (unit_seconds(unit) as int)) as u8
}

/// The unit just past a span in a grid that starts at `origin`, rounded up
/// and cut to a byte.
pub open spec fn end_unit(s: Span, origin: int, unit: StretchUnit) -> u8 {
    ((s.end.secs - origin + unit_seconds(unit) - 1) / (unit_seconds(unit) as int)) as u8
}

/// The range of units of a span: at least one unit long.
pub open spec fn range_fits(r: StretchRange, s: Span, origin: int, unit: StretchUnit) -> bool {
    &&& r.spec_start() == start_unit(s, origin, unit)
    &&& r.spec_end() == if end_unit(s, origin, unit) > start_unit(s, origin, unit) + 1 {
        end_unit(s, origin, unit) as int
    } else {
        start_unit(s, origin, unit) + 1
    }
}

/// The origin of the grid of a range algebra: its earliest start.
pub open spec fn origin_of(ra: RangeAlgebra) -> int {
    earliest_start(ra.span_map(), ra.span_keys())
}

/// Every task starts before the last unit that the grid can hold.
pub open spec fn all_start_in_grid(ra: RangeAlgebra, unit: StretchUnit) -> bool {
    forall|t: TaskId| #[trigger] ra.span_map().contains_key(t) ==> start_unit(ra.span_map()[t], origin_of(ra), unit) < 255
}

/// `e` reports a task that starts at the last unit the grid can hold.
pub open spec fn start_error(ra: RangeAlgebra, unit: StretchUnit, e: GridAlgebraError) -> bool {
    exists|t: TaskId| #[trigger] ra.span_map().contains_key(t)
        && start_unit(ra.span_map()[t], origin_of(ra), unit) == 255
        && e == (GridAlgebraError::InvalidTimeRange { start: ra.span_map()[t].start, end: ra.span_map()[t].end })
}

/// `st` holds the stretch of every task of the range algebra.
pub open spec fn stretches_fit(ra: RangeAlgebra, unit: StretchUnit, st: Map<TaskId, Stretch>) -> bool {
    &&& forall|t: TaskId| #[trigger] st.contains_key(t) <==> ra.span_map().contains_key(t)
    &&& forall|t: TaskId| #[trigger] st.contains_key(t)
        ==> st[t].unit == unit && range_fits(st[t].range, ra.span_map()[t], origin_of(ra), unit)
}

/// A sort entry: a key, a task and a unit.
pub type Keyed = (u64, TaskId, u8);

/// The entries are in increasing order of key.
pub open spec fn sorted_by_key(s: Seq<Keyed>) -> bool {
    forall|i: int, j: int| 0 <= i <= j < s.len() ==> s[i].0 <= s[j].0
}

/// Where an entry with key `k` goes in `s`: before the first entry whose
/// key is larger.
pub open spec fn insert_pos(s: Seq<Keyed>, k: u64) -> int
    decreases s.len(),
{
    if s.len() == 0 || s[0].0 > k {
        0
    } else {
        1 + insert_pos(s.drop_first(), k)
    }
}

/// The entries sorted by key, each put after the entries before it whose
/// key is no larger: entries with equal keys keep their order.
pub open spec fn insertion_sorted(s: Seq<Keyed>) -> Seq<Keyed>
    decreases s.len(),
{
    if s.len() == 0 {
        s
    } else {
        let r = insertion_sorted(s.drop_last());
        r.insert(insert_pos(r, s.last().0), s.last())
    }
}

/// The place before the first larger key, after a run of keys no larger.
proof fn lemma_insert_pos(s: Seq<Keyed>, k: u64, p: int)
    requires
        0 <= p <= s.len(),
        forall|q: int| 0 <= q < p ==> #[trigger] s[q].0 <= k,
        p == s.len() || s[p].0 > k,
    ensures
        insert_pos(s, k) == p,
    decreases p,
{
    if p > 0 {
        let t = s.drop_first();
        assert forall|q: int| 0 <= q < p - 1 implies #[trigger] t[q].0 <= k by {
            assert(t[q] == s[q + 1]);
        }
        if p < s.len() {
            assert(t[p - 1] == s[p]);
        }
        lemma_insert_pos(t, k, p - 1);
    }
}

/// Sorts by key, keeping entries with equal keys in their order.
fn stable_sort(v: &Vec<Keyed>) -> (r: Vec<Keyed>)
    ensures
        r@ == insertion_sorted(v@),
        r@.len() == v@.len(),
        sorted_by_key(r@),
        forall|x: Keyed| #[trigger] r@.contains(x) <==> v@.contains(x),
{
    let mut out: Vec<Keyed> = Vec::new();
    let mut i: usize = 0;
    proof {
        assert(v@.subrange(0, 0) =~= Seq::<Keyed>::empty());
    }
    while i < v.len()
        invariant
            i <= v@.len(),
            out@ == insertion_sorted(v@.subrange(0, i as int)),
            out@.len() == i,
            sorted_by_key(out@),
            forall|x: Keyed| #[trigger] out@.contains(x) ==> v@.contains(x),
            forall|k: int| 0 <= k < i ==> out@.contains(#[trigger] v@[k]),
        decreases v@.len() - i,
    {
        let e = v[i];
        let mut p: usize = 0;
        while p < out.len() && out[p].0 <= e.0
            invariant
                p <= out@.len(),
                forall|q: int| 0 <= q < p ==> #[trigger] out@[q].0 <= e.0,
            decreases out@.len() - p,
        {
            p = p + 1;
        }
        let ghost o0 = out@;
        proof {
            lemma_insert_pos(o0, e.0, p as int);
            let s1 = v@.subrange(0, i + 1);
            assert(s1.drop_last() =~= v@.subrange(0, i as int));
            assert(s1.last() == e);
        }
        out.insert(p, e);
        proof {
            assert(v@.contains(e)) by { assert(v@[i as int] == e); }
            assert forall|a: int, b: int| 0 <= a <= b < out@.len() implies out@[a].0 <= out@[b].0 by {
                if a < p && b < p {
                    assert(out@[a] == o0[a] && out@[b] == o0[b]);
                } else if a < p && b == p {
                    assert(out@[a] == o0[a]);
                } else if a < p {
                    assert(out@[a] == o0[a] && out@[b] == o0[b - 1]);
                } else if a == p && b > p {
                    assert(out@[b] == o0[b - 1]);
                    assert(o0[p as int].0 > e.0);
                } else if a > p {
                    assert(out@[a] == o0[a - 1] && out@[b] == o0[b - 1]);
                }
            }
            assert forall|x: Keyed| #[trigger] out@.contains(x) implies v@.contains(x) by {
                let k = choose|k: int| 0 <= k < out@.len() && out@[k] == x;
                if k < p {
                    assert(o0[k] == x);
                    assert(o0.contains(x));
                } else if k > p {
                    assert(o0[k - 1] == x);
                    assert(o0.contains(x));
                }
            }
            assert forall|k: int| 0 <= k < i + 1 implies out@.contains(#[trigger] v@[k]) by {
                if k == i {
                    assert(out@[p as int] == e);
                } else {
                    assert(o0.contains(v@[k]));
                    let m = choose|m: int| 0 <= m < o0.len() && o0[m] == v@[k];
                    if m < p {
                        assert(out@[m] == v@[k]);
                    } else {
                        assert(out@[m + 1] == v@[k]);
                    }
                }
            }
        }
        i = i + 1;
    }
    proof {
        assert(v@.subrange(0, v@.len() as int) =~= v@);
        assert forall|x: Keyed| #[trigger] v@.contains(x) implies out@.contains(x) by {
            let k = choose|k: int| 0 <= k < v@.len() && v@[k] == x;
        }
    }
    out
}

/// The sort entries of the tasks that have a stretch, in the order of the
/// tasks: the start as key, the task and the end.
pub open spec fn keyed_of(tasks: Seq<TaskId>, st: Map<TaskId, Stretch>) -> Seq<Keyed>
    decreases tasks.len(),
{
    if tasks.len() == 0 {
        Seq::empty()
    } else {
        let rest = keyed_of(tasks.drop_last(), st);
        let t = tasks.last();
        if st.contains_key(t) {
            rest.push((st[t].range.spec_start() as u64, t, st[t].range.spec_end()))
        } else {
            rest
        }
    }
}

/// The first lane free at `start`, whose last entry ends no later; one past
/// the lanes when there is none.
pub open spec fn first_free(ends: Seq<u8>, start: u64) -> int
    decreases ends.len(),
{
    if ends.len() == 0 || ends[0] <= start {
        0
    } else {
        1 + first_free(ends.drop_first(), start)
    }
}

/// The end of each lane once the entries are placed in order, each in the
/// first lane free at its key, or in a new lane.
pub open spec fn first_fit(items: Seq<Keyed>) -> Seq<u8>
    decreases items.len(),
{
    if items.len() == 0 {
        Seq::empty()
    } else {
        let ends = first_fit(items.drop_last());
        let e = items.last();
        let q = first_free(ends, e.0);
        if q < ends.len() {
            ends.update(q, e.2)
        } else {
            ends.push(e.2)
        }
    }
}

/// The first free lane follows a run of lanes busy at `start`.
proof fn lemma_first_free(ends: Seq<u8>, start: u64, q: int)
    requires
        0 <= q <= ends.len(),
        forall|p: int| 0 <= p < q ==> #[trigger] ends[p] > start,
        q == ends.len() || ends[q] <= start,
    ensures
        first_free(ends, start) == q,
    decreases q,
{
    if q > 0 {
        let t = ends.drop_first();
        assert forall|p: int| 0 <= p < q - 1 implies #[trigger] t[p] > start by {
            assert(t[p] == ends[p + 1]);
        }
        if q < ends.len() {
            assert(t[q - 1] == ends[q]);
        }
        lemma_first_free(t, start, q - 1);
    }
}

/// The sort entries of tasks keyed by identifier.
pub open spec fn id_entries(v: Seq<TaskId>) -> Seq<Keyed> {
    v.map_values(|t: TaskId| (t.0 as u64, t, 0u8))
}

/// The tasks in increasing order of identifier.
pub open spec fn sorted_ids(v: Seq<TaskId>) -> Seq<TaskId> {
    insertion_sorted(id_entries(v)).map_values(|e: Keyed| e.1)
}

/// The tasks in increasing order of identifier.
fn sort_ids(v: &Vec<TaskId>) -> (r: Vec<TaskId>)
    ensures
        r@ == sorted_ids(v@),
        r@.len() == v@.len(),
        forall|x: TaskId| #[trigger] r@.contains(x) <==> v@.contains(x),
{
    let mut keyed: Vec<Keyed> = Vec::new();
    let mut i: usize = 0;
    while i < v.len()
        invariant
            i <= v@.len(),
            keyed@.len() == i,
            forall|k: int| 0 <= k < i ==> (#[trigger] keyed@[k]).1 == v@[k],
            forall|k: int| 0 <= k < i ==> #[trigger] keyed@[k] == id_entries(v@)[k],
        decreases v@.len() - i,
    {
        keyed.push((v[i].0 as u64, v[i], 0));
        i = i + 1;
    }
    let sorted = stable_sort(&keyed);
    let mut out: Vec<TaskId> = Vec::new();
    let mut j: usize = 0;
    while j < sorted.len()
        invariant
            j <= sorted@.len(),
            sorted@.len() == v@.len(),
            keyed@.len() == v@.len(),
            forall|k: int| 0 <= k < keyed@.len() ==> (#[trigger] keyed@[k]).1 == v@[k],
            forall|x: Keyed| #[trigger] sorted@.contains(x) ==> keyed@.contains(x),
            forall|x: Keyed| #[trigger] keyed@.contains(x) ==> sorted@.contains(x),
            out@.len() == j,
            forall|k: int| 0 <= k < j ==> v@.contains(#[trigger] out@[k]),
            forall|k: int| 0 <= k < j ==> #[trigger] out@[k] == sorted@[k].1,
        decreases sorted@.len() - j,
    {
        let e = sorted[j];
        proof {
            assert(sorted@.contains(e)) by { assert(sorted@[j as int] == e); }
            let k = choose|k: int| 0 <= k < keyed@.len() && keyed@[k] == e;
            assert(v@[k] == e.1);
        }
        out.push(e.1);
        j = j + 1;
    }
    proof {
        assert forall|x: TaskId| #[trigger] out@.contains(x) implies v@.contains(x) by {
            let k = choose|k: int| 0 <= k < out@.len() && out@[k] == x;
        }
        assert forall|x: TaskId| #[trigger] v@.contains(x) implies out@.contains(x) by {
            let k = choose|k: int| 0 <= k < v@.len() && v@[k] == x;
            assert(keyed@[k].1 == x);
            assert(keyed@.contains(keyed@[k]));
            let m = choose|m: int| 0 <= m < sorted@.len() && sorted@[m] == keyed@[k];
            assert(out@[m] == x);
        }
        assert(keyed@ =~= id_entries(v@));
        assert(out@ =~= sorted_ids(v@));
    }
    out
}

/// How many lanes the tasks need side by side: none or one for as many
/// tasks, else the lanes of the greedy placement of their stretches in
/// order of start.
pub open spec fn overlap_count(tasks: Seq<TaskId>, st: Map<TaskId, Stretch>) -> int {
    if tasks.len() <= 1 {
        tasks.len() as int
    } else {
        first_fit(insertion_sorted(keyed_of(tasks, st))).len() as int
    }
}

/// The visit record once the tasks `ds`, found from an entry at `depth`,
/// are taken in order: each one not yet recorded joins at one more depth.
pub open spec fn bfs_expand(q: Seq<(TaskId, usize)>, depth: usize, ds: Seq<TaskId>) -> Seq<(TaskId, usize)>
    decreases ds.len(),
{
    if ds.len() == 0 {
        q
    } else {
        let q1 = bfs_expand(q, depth, ds.drop_last());
        if firsts(q1).contains(ds.last()) {
            q1
        } else {
            q1.push((ds.last(), (depth + 1) as usize))
        }
    }
}

/// The breadth-first visit record grown from `q`, whose entries before
/// `head` are expanded, over at most `fuel` more entries: each entry in turn
/// adds the tasks that depend on it, in order of identifier.
pub open spec fn bfs_record(g: Graph, q: Seq<(TaskId, usize)>, head: nat, fuel: nat) -> Seq<(TaskId, usize)>
    decreases fuel,
{
    if fuel == 0 || head >= q.len() {
        q
    } else {
        let e = q[head as int];
        bfs_record(g, bfs_expand(q, e.1, sorted_ids(g.succs(e.0))), head + 1, (fuel - 1) as nat)
    }
}

/// The tasks of the record at depth `d`, in order.
pub open spec fn level_of(q: Seq<(TaskId, usize)>, d: int) -> Seq<TaskId>
    decreases q.len(),
{
    if q.len() == 0 {
        Seq::empty()
    } else {
        let r = level_of(q.drop_last(), d);
        if q.last().1 == d {
            r.push(q.last().0)
        } else {
            r
        }
    }
}

/// The greatest depth among the first `n` entries of the record; 0 for none.
pub open spec fn depth_upto(q: Seq<(TaskId, usize)>, n: nat) -> int
    decreases n,
{
    if n == 0 {
        0
    } else {
        let m = depth_upto(q, (n - 1) as nat);
        if q[n - 1].1 > m {
            q[n - 1].1 as int
        } else {
            m
        }
    }
}

/// The largest count of lanes over the levels below `n` that hold a task;
/// at least one.
pub open spec fn widest_level(q: Seq<(TaskId, usize)>, st: Map<TaskId, Stretch>, n: nat) -> int
    decreases n,
{
    if n == 0 {
        1
    } else {
        let w = widest_level(q, st, (n - 1) as nat);
        let lv = level_of(q, n - 1);
        if lv.len() > 0 && overlap_count(lv, st) > w {
            overlap_count(lv, st)
        } else {
            w
        }
    }
}

/// The widest level, in lanes side by side, of the breadth-first record of
/// the tasks reached from `root`.
pub open spec fn subtree_width(g: Graph, root: TaskId, st: Map<TaskId, Stretch>) -> int {
    let q = bfs_record(g, seq![(root, 0usize)], 0, 257);
    widest_level(q, st, (depth_upto(q, q.len()) + 1) as nat)
}

/// The dependencies of `t`, in increasing order of identifier.
pub open spec fn dependency_order(g: Graph, t: TaskId) -> Seq<TaskId> {
    sorted_ids(g.task_seq().filter(crate::graph::leads_to_fn(g, t)))
}

/// The sort entries of the dependencies that have a lane, in order, with
/// the lane as key.
pub open spec fn parent_entries(asg: Seq<Option<usize>>, deps: Seq<TaskId>) -> Seq<Keyed>
    decreases deps.len(),
{
    if deps.len() == 0 {
        Seq::empty()
    } else {
        let rest = parent_entries(asg, deps.drop_last());
        let d = deps.last();
        if asg[d.0 as int] is Some {
            rest.push((asg[d.0 as int]->Some_0 as u64, d, 0u8))
        } else {
            rest
        }
    }
}

/// The lane a task prefers: with more than one dependency, the middle one
/// of the sorted lanes of its dependencies that have a lane, if any;
/// otherwise `preferred`.
pub open spec fn preferred_lane(asg: Seq<Option<usize>>, deps: Seq<TaskId>, preferred: int) -> int {
    let pl = parent_entries(asg, deps);
    if deps.len() > 1 && pl.len() > 0 {
        insertion_sorted(pl)[(pl.len() / 2) as int].0 as int
    } else {
        preferred
    }
}

/// A placement state: the lane of each task, and the entries of each lane.
pub type LaneState = (Seq<Option<usize>>, Lanes);

/// The lanes, with empty lanes added up to and including `lane`.
pub open spec fn extend_lanes(occ: Lanes, lane: int) -> Lanes {
    if lane < occ.len() {
        occ
    } else {
        occ + Seq::new((lane + 1 - occ.len()) as nat, |i: int| Seq::<(TaskId, StretchRange)>::empty())
    }
}

/// The state once task `t`, with range `range`, takes lane `lane`.
pub open spec fn place_task(s: LaneState, t: TaskId, lane: int, range: StretchRange) -> LaneState {
    let occ = extend_lanes(s.1, lane);
    (s.0.update(t.0 as int, Some(lane as usize)), occ.update(lane, occ[lane].push((t, range))))
}

/// Depth-first placement from `t`, preferring lane `preferred`, over at
/// most `fuel` levels: a task with a lane is left as it is; a task without
/// a stretch fails; otherwise the task takes the lane found by the outward
/// search from its preferred lane, and then the tasks that depend on it are
/// placed in order of identifier, each preferring its lane.
pub open spec fn dfs_lanes(g: Graph, st: Map<TaskId, Stretch>, t: TaskId, preferred: int, s: LaneState, fuel: nat) -> Option<LaneState>
    decreases fuel, 0int,
{
    if fuel == 0 || s.0[t.0 as int] is Some {
        Some(s)
    } else if !st.contains_key(t) {
        None
    } else {
        let lane = spiral_lane(s.1, preferred_lane(s.0, dependency_order(g, t), preferred), st[t].range);
        dfs_children(g, st, sorted_ids(g.succs(t)), 0, lane, place_task(s, t, lane, st[t].range), (fuel - 1) as nat)
    }
}

/// Depth-first placement of the tasks `ds` from position `j` on, each
/// preferring lane `lane`; the first failure ends it.
pub open spec fn dfs_children(g: Graph, st: Map<TaskId, Stretch>, ds: Seq<TaskId>, j: int, lane: int, s: LaneState, fuel: nat) -> Option<LaneState>
    decreases fuel, ds.len() - j + 1,
{
    if j >= ds.len() || j < 0 {
        Some(s)
    } else {
        match dfs_lanes(g, st, ds[j], lane, s, fuel) {
            None => None,
            Some(s2) => dfs_children(g, st, ds, j + 1, lane, s2, fuel),
        }
    }
}

/// Lanes grown for a task and given it: the value is the lanes extended up
/// to `lane`, with the entry added to that lane.
proof fn lemma_place_view(
    occ0: Seq<Vec<(TaskId, StretchRange)>>,
    occ1: Seq<Vec<(TaskId, StretchRange)>>,
    o2: Seq<Vec<(TaskId, StretchRange)>>,
    lane: int,
    e: (TaskId, StretchRange),
)
    requires
        0 <= lane,
        occ1.len() >= occ0.len(),
        occ1.len() > lane,
        occ1.len() <= occ0.len() || occ1.len() <= lane + 1,
        forall|l: int| 0 <= l < occ0.len() ==> #[trigger] occ1[l] == occ0[l],
        forall|l: int| occ0.len() <= l < occ1.len() ==> (#[trigger] occ1[l])@.len() == 0,
        o2 == occ1.update(lane, o2[lane]),
        o2[lane]@ == occ1[lane]@.push(e),
    ensures
        occ_view(o2) == extend_lanes(occ_view(occ0), lane).update(lane, extend_lanes(occ_view(occ0), lane)[lane].push(e)),
{
    let x = extend_lanes(occ_view(occ0), lane);
    assert(occ_view(occ1) =~= x) by {
        assert forall|l: int| 0 <= l < occ1.len() implies occ_view(occ1)[l] == x[l] by {
            if l < occ0.len() {
                assert(occ1[l] == occ0[l]);
            } else {
                assert(occ1[l]@ =~= Seq::<(TaskId, StretchRange)>::empty());
            }
        }
    }
    assert(occ_view(o2) =~= x.update(lane, x[lane].push(e))) by {
        assert forall|l: int| 0 <= l < o2.len() implies occ_view(o2)[l] == x.update(lane, x[lane].push(e))[l] by {
            if l != lane {
                assert(o2[l] == occ1[l]);
                assert(occ_view(o2)[l] == occ_view(occ1)[l]);
            }
        }
    }
}

/// The sort entries of roots: each root's first unit as key (0 for a root
/// without a stretch), the root, and 0.
pub open spec fn root_entries(rs: Seq<TaskId>, st: Map<TaskId, Stretch>) -> Seq<Keyed> {
    rs.map_values(|r: TaskId| (if st.contains_key(r) { st[r].range.spec_start() as u64 } else { 0u64 }, r, 0u8))
}

/// The roots of `g` in order of start, ties in order of identifier.
pub open spec fn root_order(g: Graph, st: Map<TaskId, Stretch>) -> Seq<Keyed> {
    insertion_sorted(root_entries(g.task_seq().filter(crate::graph::root_fn(g)), st))
}

/// Depth-first placement from each root in turn, from position `j` of `rs`
/// on: a root prefers lane `cur`, and the next root the lane past this
/// root's subtree width and one lane more; the first failure ends it.
pub open spec fn place_roots(g: Graph, st: Map<TaskId, Stretch>, rs: Seq<Keyed>, j: int, cur: int, s: LaneState) -> Option<LaneState>
    decreases rs.len() - j,
{
    if j >= rs.len() || j < 0 {
        Some(s)
    } else {
        match dfs_lanes(g, st, rs[j].1, cur, s, 257) {
            None => None,
            Some(s2) => place_roots(g, st, rs, j + 1, cur + subtree_width(g, rs[j].1, st) + 1, s2),
        }
    }
}

/// No task with a lane, and no lane.
pub open spec fn no_lanes() -> LaneState {
    (Seq::new(256, |i: int| None::<usize>), Seq::empty())
}

/// The lane of every task, by identifier, as the layout gives it: the roots
/// in order of start, each subtree placed depth first from its root, and
/// each root preferring the lane past the bands of the subtrees before it;
/// nothing when a task reached has no stretch.
pub open spec fn lane_assignment(g: Graph, st: Map<TaskId, Stretch>) -> Option<Seq<Option<usize>>> {
    match place_roots(g, st, root_order(g, st), 0, 0, no_lanes()) {
        Some(s) => Some(s.0),
        None => None,
    }
}

/// The stretch of each task of a grid.
pub open spec fn grid_stretches(ga: GridAlgebra) -> Map<TaskId, Stretch> {
    ga.cell_map().map_values(|c: Cell| c.stretch)
}

/// The lanes of a grid are those of its layout: every task has the lane
/// that `lane_assignment` gives it from the grid's stretches.
pub open spec fn lanes_laid_out(ga: GridAlgebra) -> bool {
    lane_assignment(ga.spec_range_algebra().spec_graph(), grid_stretches(ga)) matches Some(a)
        && forall|t: TaskId| #[trigger] ga.lane_positions().contains_key(t) ==> a[t.0 as int] == Some(ga.lane_positions()[t] as usize)
}

/// A task with a lane has every task that depends on it in a lane too.
pub open spec fn lanes_closed_at(g: Graph, asg: Seq<Option<usize>>, t: TaskId) -> bool {
    asg[t.0 as int] is Some ==> forall|d: TaskId| #[trigger] g.edge(t, d) ==> asg[d.0 as int] is Some
}

/// When every task with a lane has its dependents in lanes, whatever a task
/// with a lane reaches has a lane.
proof fn lemma_closed_lanes_reach(g: Graph, asg: Seq<Option<usize>>, a: TaskId, b: TaskId)
    requires
        forall|t: TaskId| #[trigger] lanes_closed_at(g, asg, t),
        asg[a.0 as int] is Some,
        reaches(g, false, a, b),
    ensures
        asg[b.0 as int] is Some,
{
    let p = choose|p: Seq<TaskId>| #[trigger] crate::traversal::is_walk(g, false, p) && p[0] == a && p.last() == b;
    lemma_closed_walk(g, asg, p, p.len() - 1);
}

/// Along a walk from a task with a lane, under closed lanes, entry `k` has a lane.
proof fn lemma_closed_walk(g: Graph, asg: Seq<Option<usize>>, p: Seq<TaskId>, k: int)
    requires
        forall|t: TaskId| #[trigger] lanes_closed_at(g, asg, t),
        crate::traversal::is_walk(g, false, p),
        asg[p[0].0 as int] is Some,
        0 <= k < p.len(),
    ensures
        asg[p[k].0 as int] is Some,
    decreases k,
{
    if k > 0 {
        lemma_closed_walk(g, asg, p, k - 1);
        assert(crate::traversal::step(g, false, p[k - 1], p[k - 1 + 1]));
        assert(lanes_closed_at(g, asg, p[k - 1]));
    }
}

/// The lanes recorded so far: `asg` holds the lane of each placed task,
/// `occ` the tasks of each lane with their ranges; a task lies in exactly
/// the lane recorded for it, with its own range, and no two ranges of a lane
/// share a unit.
pub open spec fn occupancy_ok(asg: Seq<Option<usize>>, occ: Seq<Vec<(TaskId, StretchRange)>>, st: Map<TaskId, Stretch>) -> bool {
    &&& asg.len() == 256
    &&& forall|l: int, k: int| 0 <= l < occ.len() && 0 <= k < occ[l]@.len() ==> {
        let e = #[trigger] occ[l]@[k];
        &&& asg[e.0.0 as int] == Some(l as usize)
        &&& st.contains_key(e.0)
        &&& e.1 == st[e.0].range
        &&& e.1.spec_start() < e.1.spec_end()
    }
    &&& forall|t: TaskId| #[trigger] asg[t.0 as int] is Some ==> {
        let l = asg[t.0 as int]->Some_0 as int;
        &&& l < occ.len()
        &&& exists|k: int| 0 <= k < occ[l]@.len() && (#[trigger] occ[l]@[k]).0 == t
    }
    &&& forall|l: int, a: int, b: int| 0 <= l < occ.len() && 0 <= a < occ[l]@.len() && 0 <= b < occ[l]@.len() && a != b
        ==> !ranges_overlap(#[trigger] occ[l]@[a].1, #[trigger] occ[l]@[b].1)
}

/// The tasks without a lane.
pub open spec fn free_set(asg: Seq<Option<usize>>) -> Set<int> {
    Set::new(|i: int| 0 <= i < 256 && asg[i] is None)
}

/// The number of tasks without a lane.
pub open spec fn free_count(asg: Seq<Option<usize>>) -> nat {
    free_set(asg).len()
}

/// The bound below which every lane position stays.
pub open spec fn lane_bound(asg: Seq<Option<usize>>) -> int {
    66_000 + 256 * (256 - free_count(asg))
}

/// There are at most 256 tasks without a lane, and fewer once one more has one.
proof fn lemma_free_count(a1: Seq<Option<usize>>, a2: Seq<Option<usize>>, u: int)
    requires
        a1.len() == 256,
        a2.len() == 256,
        forall|i: int| 0 <= i < 256 && a2[i] is None ==> a1[i] is None,
    ensures
        free_count(a1) <= 256,
        free_count(a2) <= free_count(a1),
        0 <= u < 256 && a1[u] is None && a2[u] is Some ==> free_count(a2) < free_count(a1),
{
    vstd::set_lib::lemma_int_range(0, 256);
    let r = vstd::set_lib::set_int_range(0, 256);
    vstd::set_lib::lemma_len_subset(free_set(a1), r);
    vstd::set_lib::lemma_len_subset(free_set(a2), free_set(a1));
    if 0 <= u < 256 && a1[u] is None && a2[u] is Some {
        vstd::set_lib::lemma_len_subset(free_set(a2), free_set(a1).remove(u));
    }
}

/// Whether `range` shares a unit with a range of lane `lane`.
fn has_temporal_overlap(lane: usize, range: &StretchRange, occ: &Vec<Vec<(TaskId, StretchRange)>>) -> (r: bool)
    ensures
        r == (lane < occ@.len() && exists|k: int| 0 <= k < occ@[lane as int]@.len()
            && ranges_overlap(*range, #[trigger] occ@[lane as int]@[k].1)),
{
    if lane >= occ.len() {
        return false;
    }
    let entries = &occ[lane];
    let mut k: usize = 0;
    while k < entries.len()
        invariant
            k <= entries@.len(),
            lane < occ@.len(),
            *entries == occ@[lane as int],
            forall|q: int| 0 <= q < k ==> !ranges_overlap(*range, #[trigger] entries@[q].1),
        decreases entries@.len() - k,
    {
        if range.overlaps(&entries[k].1) {
            assert(ranges_overlap(*range, occ@[lane as int]@[k as int].1));
            return true;
        }
        k = k + 1;
    }
    false
}

/// The tasks of each lane with their ranges.
pub type Lanes = Seq<Seq<(TaskId, StretchRange)>>;

/// The value of an occupancy: the entries of each lane.
pub open spec fn occ_view(occ: Seq<Vec<(TaskId, StretchRange)>>) -> Lanes {
    occ.map_values(|v: Vec<(TaskId, StretchRange)>| v@)
}

/// Whether lane `l` is in use and `range` meets none of its ranges.
pub open spec fn lane_free(occ: Lanes, l: int, range: StretchRange) -> bool {
    0 <= l < occ.len() && !exists|k: int| 0 <= k < occ[l].len() && ranges_overlap(range, #[trigger] occ[l][k].1)
}

/// A lane of an occupancy is free exactly when its vector holds no entry
/// whose range meets `range`.
proof fn lemma_lane_free_view(occ: Seq<Vec<(TaskId, StretchRange)>>, range: StretchRange)
    ensures
        forall|l: int| #[trigger] lane_free(occ_view(occ), l, range) == (0 <= l < occ.len()
            && !exists|k: int| 0 <= k < occ[l]@.len() && ranges_overlap(range, #[trigger] occ[l]@[k].1)),
{
    assert forall|l: int| #[trigger] lane_free(occ_view(occ), l, range) == (0 <= l < occ.len()
        && !exists|k: int| 0 <= k < occ[l]@.len() && ranges_overlap(range, #[trigger] occ[l]@[k].1)) by {
        if 0 <= l < occ.len() {
            assert(occ_view(occ)[l] == occ[l]@);
        }
    }
}

/// The search outwards from `preferred`, from distance `offset` on: at each
/// distance the free lane below, then the one above, and the lane above as
/// soon as it lies past the lanes in use; one past the lanes in use after
/// distance 255.
pub open spec fn spiral_from(occ: Lanes, preferred: int, range: StretchRange, offset: int) -> int
    decreases 256 - offset,
{
    if offset > 255 || offset < 1 {
        occ.len() as int
    } else if preferred >= offset && lane_free(occ, preferred - offset, range) {
        preferred - offset
    } else if lane_free(occ, preferred + offset, range) || preferred + offset >= occ.len() {
        preferred + offset
    } else {
        spiral_from(occ, preferred, range, offset + 1)
    }
}

/// The lane found for `range` near `preferred`: `preferred` itself when it
/// is free, else the outward search.
pub open spec fn spiral_lane(occ: Lanes, preferred: int, range: StretchRange) -> int {
    if lane_free(occ, preferred, range) {
        preferred
    } else {
        spiral_from(occ, preferred, range, 1)
    }
}

/// The outward search ends in a free lane or one past the lanes in use, and
/// no further than distance 255.
proof fn lemma_spiral_from(occ: Lanes, preferred: int, range: StretchRange, offset: int)
    requires
        1 <= offset,
        0 <= preferred,
    ensures
        spiral_from(occ, preferred, range, offset) >= occ.len() || lane_free(occ, spiral_from(occ, preferred, range, offset), range),
        spiral_from(occ, preferred, range, offset) <= preferred + 255 || spiral_from(occ, preferred, range, offset) == occ.len(),
        spiral_from(occ, preferred, range, offset) >= 0,
    decreases 256 - offset,
{
    if offset <= 255 {
        lemma_spiral_from(occ, preferred, range, offset + 1);
    }
}

/// A lane for `range`, searched outwards from `preferred`: a lane whose
/// ranges it does not meet, or one past the lanes in use.
fn find_available_lane(preferred: usize, range: &StretchRange, occ: &Vec<Vec<(TaskId, StretchRange)>>) -> (r: usize)
    requires
        preferred <= 1_000_000,
    ensures
        r == spiral_lane(occ_view(occ@), preferred as int, *range),
        r >= occ@.len() || !exists|k: int| 0 <= k < occ@[r as int]@.len() && ranges_overlap(*range, #[trigger] occ@[r as int]@[k].1),
        r <= preferred + 255 || r == occ@.len(),
{
    proof {
        lemma_spiral_from(occ_view(occ@), preferred as int, *range, 1);
        lemma_lane_free_view(occ@, *range);
    }
    if preferred < occ.len() && !has_temporal_overlap(preferred, range, occ) {
        return preferred;
    }
    let mut offset: usize = 1;
    while offset <= 255
        invariant
            1 <= offset <= 256,
            preferred <= 1_000_000,
            !lane_free(occ_view(occ@), preferred as int, *range),
            spiral_lane(occ_view(occ@), preferred as int, *range) == spiral_from(occ_view(occ@), preferred as int, *range, offset as int),
        decreases 256 - offset,
    {
        proof {
            lemma_spiral_from(occ_view(occ@), preferred as int, *range, offset as int);
            lemma_lane_free_view(occ@, *range);
        }
        if preferred >= offset {
            let candidate = preferred - offset;
            if candidate < occ.len() && !has_temporal_overlap(candidate, range, occ) {
                return candidate;
            }
        }
        let candidate = preferred + offset;
        if candidate < occ.len() && !has_temporal_overlap(candidate, range, occ) {
            return candidate;
        }
        if candidate >= occ.len() {
            return candidate;
        }
        offset = offset + 1;
    }
    occ.len()
}

/// Tasks that share a lane do not share a unit of time.
pub open spec fn lanes_apart(asg: Seq<Option<usize>>, st: Map<TaskId, Stretch>) -> bool {
    forall|a: TaskId, b: TaskId| a != b && (#[trigger] asg[a.0 as int]) is Some && asg[a.0 as int] == #[trigger] asg[b.0 as int]
        ==> !ranges_overlap(st[a].range, st[b].range)
}

/// Recorded lanes keep tasks that share a lane apart in time.
proof fn lemma_lanes_apart(asg: Seq<Option<usize>>, occ: Seq<Vec<(TaskId, StretchRange)>>, st: Map<TaskId, Stretch>)
    requires
        occupancy_ok(asg, occ, st),
    ensures
        lanes_apart(asg, st),
        forall|t: TaskId| (#[trigger] asg[t.0 as int]) is Some ==> st.contains_key(t),
{
    assert forall|a: TaskId, b: TaskId| a != b && (#[trigger] asg[a.0 as int]) is Some && asg[a.0 as int] == #[trigger] asg[b.0 as int]
        implies !ranges_overlap(st[a].range, st[b].range) by {
        let l = asg[a.0 as int]->Some_0 as int;
        let ka = choose|k: int| 0 <= k < occ[l]@.len() && (#[trigger] occ[l]@[k]).0 == a;
        let kb = choose|k: int| 0 <= k < occ[l]@.len() && (#[trigger] occ[l]@[k]).0 == b;
        assert(ka != kb);
        assert(occ[l]@[ka].1 == st[a].range);
        assert(occ[l]@[kb].1 == st[b].range);
    }
    assert forall|t: TaskId| (#[trigger] asg[t.0 as int]) is Some implies st.contains_key(t) by {
        let l = asg[t.0 as int]->Some_0 as int;
        let k = choose|k: int| 0 <= k < occ[l]@.len() && (#[trigger] occ[l]@[k]).0 == t;
        assert(st.contains_key(occ[l]@[k].0));
    }
}

/// The layout of a range algebra on the grid.
pub struct GridAlgebra {
    range_algebra: RangeAlgebra,
    time_unit: StretchUnit,
    tasks: IdMap<Cell>,
    total_lanes: usize,
    max_x_axis: u8,
    max_y_axis: u8,
    lanes: Ghost<Map<TaskId, int>>,
}

/// The grid lays out every task of `ra`: in the grid's unit, each over the
/// units of its span, and in a lane whose position, cut to a byte, is its
/// lane identifier; tasks in the same lane position never share a unit; the
/// extremes are the largest end and the largest lane identifier.
pub open spec fn grid_ok(ga: GridAlgebra, ra: RangeAlgebra) -> bool {
    let cells = ga.cell_map();
    let lanes = ga.lane_positions();
    let unit = grid_unit(ra.span_map(), ra.span_keys());
    &&& ga.spec_range_algebra() == ra
    &&& ga.spec_time_unit() == unit
    &&& forall|t: TaskId| #[trigger] cells.contains_key(t) <==> ra.span_map().contains_key(t)
    &&& forall|t: TaskId| #[trigger] lanes.contains_key(t) <==> cells.contains_key(t)
    &&& forall|t: TaskId| #[trigger] cells.contains_key(t) ==> cells[t].stretch.unit == unit
        && range_fits(cells[t].stretch.range, ra.span_map()[t], origin_of(ra), unit)
        && cells[t].lane.0 == (lanes[t] as usize) as u8
        && lanes[t] >= 0
    &&& forall|a: TaskId, b: TaskId| a != b && #[trigger] lanes.contains_key(a) && #[trigger] lanes.contains_key(b)
        && lanes[a] == lanes[b] ==> !ranges_overlap(cells[a].stretch.range, cells[b].stretch.range)
    &&& forall|t: TaskId| #[trigger] cells.contains_key(t) ==> cells[t].stretch.range.spec_end() <= ga.spec_max_x()
        && cells[t].lane.0 <= ga.spec_max_y()
    &&& exists|t: TaskId| #[trigger] cells.contains_key(t) && cells[t].stretch.range.spec_end() == ga.spec_max_x()
    &&& exists|t: TaskId| #[trigger] cells.contains_key(t) && cells[t].lane.0 == ga.spec_max_y()
    &&& ga.spec_total_lanes() == ga.spec_max_y() + 1
}

/// While every lane position fits in a byte, two tasks with the same lane
/// identifier never share a unit of time.
pub proof fn lemma_lane_ids_apart(ga: GridAlgebra, ra: RangeAlgebra)
    requires
        grid_ok(ga, ra),
        forall|t: TaskId| #[trigger] ga.lane_positions().contains_key(t) ==> ga.lane_positions()[t] < 256,
    ensures
        forall|a: TaskId, b: TaskId| a != b && #[trigger] ga.cell_map().contains_key(a) && #[trigger] ga.cell_map().contains_key(b)
            && ga.cell_map()[a].lane == ga.cell_map()[b].lane
            ==> !ranges_overlap(ga.cell_map()[a].stretch.range, ga.cell_map()[b].stretch.range),
{
    let cells = ga.cell_map();
    let lanes = ga.lane_positions();
    assert forall|a: TaskId, b: TaskId| a != b && #[trigger] cells.contains_key(a) && #[trigger] cells.contains_key(b)
        && cells[a].lane == cells[b].lane implies !ranges_overlap(cells[a].stretch.range, cells[b].stretch.range) by {
        assert(lanes.contains_key(a) && lanes.contains_key(b));
        let la = lanes[a];
        let lb = lanes[b];
        assert(0 <= la < 256 && 0 <= lb < 256);
        assert((la as usize) as u8 == la);
        assert((lb as usize) as u8 == lb);
        assert(la == lb);
    }
}

impl GridAlgebra {
    #[verifier::type_invariant]
    spec fn inv(&self) -> bool {
        grid_ok(*self, self.range_algebra)
    }

    /// The layout is that of its range algebra, as `compute` made it.
    pub(crate) fn check(&self)
        ensures
            grid_ok(*self, self.spec_range_algebra()),
    {
        proof { use_type_invariant(self); }
    }

    /// The range algebra laid out.
    pub closed spec fn spec_range_algebra(&self) -> RangeAlgebra {
        self.range_algebra
    }

    /// The unit of the grid.
    pub closed spec fn spec_time_unit(&self) -> StretchUnit {
        self.time_unit
    }

    /// The cells, by task.
    pub closed spec fn cell_map(&self) -> Map<TaskId, Cell> {
        self.tasks@
    }

    /// The cells in increasing order of task.
    pub closed spec fn cell_keys(&self) -> Seq<TaskId> {
        self.tasks.key_seq()
    }

    /// The position of the lane of each task, before it is cut to a byte.
    pub closed spec fn lane_positions(&self) -> Map<TaskId, int> {
        self.lanes@
    }

    /// The number of lanes.
    pub closed spec fn spec_total_lanes(&self) -> usize {
        self.total_lanes
    }

    /// The largest end of a stretch.
    pub closed spec fn spec_max_x(&self) -> u8 {
        self.max_x_axis
    }

    /// The largest lane identifier.
    pub closed spec fn spec_max_y(&self) -> u8 {
        self.max_y_axis
    }

    /// The graph.
    pub fn graph(&self) -> (r: &Graph)
        ensures
            *r == self.spec_range_algebra().spec_graph(),
    {
        self.range_algebra.graph()
    }

    /// The range algebra laid out.
    pub fn range_algebra(&self) -> (r: &RangeAlgebra)
        ensures
            *r == self.spec_range_algebra(),
    {
        &self.range_algebra
    }

    /// The unit of the grid.
    pub fn time_unit(&self) -> (r: StretchUnit)
        ensures
            r == self.spec_time_unit(),
    {
        self.time_unit
    }

    /// The cells, by task.
    pub fn tasks(&self) -> (r: &IdMap<Cell>)
        ensures
            r@ == self.cell_map(),
            r.key_seq() == self.cell_keys(),
    {
        &self.tasks
    }

    /// The cell of `task_id`, if it has one.
    pub fn task_cell(&self, task_id: TaskId) -> (r: Option<&Cell>)
        ensures
            r matches Some(c) ==> self.cell_map().contains_key(task_id) && *c == self.cell_map()[task_id],
            r is None ==> !self.cell_map().contains_key(task_id),
    {
        self.tasks.get(task_id)
    }

    /// The tasks with a cell, in increasing order.
    pub fn task_ids(&self) -> (r: Vec<TaskId>)
        ensures
            r@ == self.cell_keys(),
            forall|t: TaskId| #[trigger] r@.contains(t) <==> self.cell_map().contains_key(t),
            strictly_increasing(r@),
    {
        proof { self.tasks.lemma_key_seq(); }
        self.tasks.keys()
    }

    /// The number of tasks with a cell.
    pub fn task_count(&self) -> (r: usize)
        ensures
            r == self.cell_keys().len(),
    {
        self.tasks.len()
    }

    /// The number of lanes.
    pub fn total_lanes(&self) -> (r: usize)
        ensures
            r == self.spec_total_lanes(),
    {
        self.total_lanes
    }

    /// Whether `task_id` has a cell.
    pub fn has_task(&self, task_id: TaskId) -> (r: bool)
        ensures
            r == self.cell_map().contains_key(task_id),
    {
        self.tasks.contains_key(task_id)
    }

    /// The tasks whose lane identifier is `lane_id`, with their cells, in
    /// increasing order of task.
    pub fn tasks_in_lane(&self, lane_id: u8) -> (r: Vec<(TaskId, Cell)>)
        ensures
            forall|i: int| 0 <= i < r@.len() ==> self.cell_map().contains_key((#[trigger] r@[i]).0)
                && r@[i].1 == self.cell_map()[r@[i].0] && r@[i].1.lane.0 == lane_id,
            forall|t: TaskId| #[trigger] self.cell_map().contains_key(t) && self.cell_map()[t].lane.0 == lane_id
                ==> exists|i: int| 0 <= i < r@.len() && (#[trigger] r@[i]).0 == t,
    {
        proof { self.tasks.lemma_key_seq(); }
        let keys = self.tasks.keys();
        let mut out: Vec<(TaskId, Cell)> = Vec::new();
        let mut i: usize = 0;
        while i < keys.len()
            invariant
                i <= keys@.len(),
                keys@ == self.tasks.key_seq(),
                forall|t: TaskId| #[trigger] keys@.contains(t) <==> self.tasks@.contains_key(t),
                forall|q: int| 0 <= q < out@.len() ==> self.tasks@.contains_key((#[trigger] out@[q]).0)
                    && out@[q].1 == self.tasks@[out@[q].0] && out@[q].1.lane.0 == lane_id,
                forall|q: int| 0 <= q < i && self.tasks@[#[trigger] keys@[q]].lane.0 == lane_id
                    ==> exists|m: int| 0 <= m < out@.len() && (#[trigger] out@[m]).0 == keys@[q],
            decreases keys@.len() - i,
        {
            let t = keys[i];
            assert(keys@.contains(t));
            let c = *self.tasks.get(t).unwrap();
            let ghost o0 = out@;
            if c.lane.0 == lane_id {
                out.push((t, c));
                proof {
                    assert(out@[o0.len() as int].0 == t);
                }
            }
            proof {
                assert forall|q: int| 0 <= q < i + 1 && self.tasks@[#[trigger] keys@[q]].lane.0 == lane_id
                    implies exists|m: int| 0 <= m < out@.len() && (#[trigger] out@[m]).0 == keys@[q] by {
                    if q < i {
                        let m = choose|m: int| 0 <= m < o0.len() && (#[trigger] o0[m]).0 == keys@[q];
                        assert(out@[m] == o0[m]);
                    } else {
                        assert(out@[o0.len() as int].0 == t);
                    }
                }
            }
            i = i + 1;
        }
        proof {
            assert forall|t: TaskId| #[trigger] self.cell_map().contains_key(t) && self.cell_map()[t].lane.0 == lane_id
                implies exists|i: int| 0 <= i < out@.len() && (#[trigger] out@[i]).0 == t by {
                assert(keys@.contains(t));
                let q = choose|q: int| 0 <= q < keys@.len() && keys@[q] == t;
                assert(self.tasks@[keys@[q]].lane.0 == lane_id);
            }
        }
        out
    }

    /// The largest end of a stretch.
    pub fn max_time_unit(&self) -> (r: u8)
        ensures
            r == self.spec_max_x(),
    {
        self.max_x_axis
    }

    /// The largest end of a stretch: the right edge of the grid.
    pub fn max_x_axis(&self) -> (r: u8)
        ensures
            r == self.spec_max_x(),
    {
        self.max_x_axis
    }

    /// The largest lane identifier: the bottom edge of the grid.
    pub fn max_y_axis(&self) -> (r: u8)
        ensures
            r == self.spec_max_y(),
    {
        self.max_y_axis
    }
}

/// A prepared grid computation over a range algebra.
pub struct PreGridAlgebra {
    range_algebra: RangeAlgebra,
}

impl PreGridAlgebra {
    /// The range algebra.
    pub closed spec fn spec_range_algebra(&self) -> RangeAlgebra {
        self.range_algebra
    }

    /// Prepares the grid computation over `range_algebra`.
    pub fn new(range_algebra: RangeAlgebra) -> (r: PreGridAlgebra)
        ensures
            r.spec_range_algebra() == range_algebra,
    {
        PreGridAlgebra { range_algebra }
    }

    /// The range algebra.
    pub fn range_algebra(&self) -> (r: &RangeAlgebra)
        ensures
            *r == self.spec_range_algebra(),
    {
        &self.range_algebra
    }

    /// The unit of the grid, from the average length of the spans.
    fn determine_time_scale_unit(&self) -> (r: Result<StretchUnit, GridAlgebraError>)
        ensures
            self.spec_range_algebra().span_keys().len() == 0 ==> r == Err::<StretchUnit, GridAlgebraError>(GridAlgebraError::NoTasks),
            self.spec_range_algebra().span_keys().len() > 0 ==> r == Ok::<StretchUnit, GridAlgebraError>(
                grid_unit(self.spec_range_algebra().span_map(), self.spec_range_algebra().span_keys())),
    {
        self.range_algebra.check();
        let keys = self.range_algebra.task_ids();
        let ghost m = self.range_algebra.span_map();
        if keys.len() == 0 {
            return Err(GridAlgebraError::NoTasks);
        }
        let mut total: u64 = 0;
        let mut i: usize = 0;
        while i < keys.len()
            invariant
                i <= keys@.len(),
                keys@.len() <= 256,
                keys@ == self.range_algebra.span_keys(),
                m == self.range_algebra.span_map(),
                forall|t: TaskId| #[trigger] keys@.contains(t) <==> m.contains_key(t),
                forall|t: TaskId| #[trigger] m.contains_key(t) ==> span_ok(m[t]),
                total == total_secs(m, keys@.subrange(0, i as int)),
                total <= i * 20_000_000_000_000,
            decreases keys@.len() - i,
        {
            let t = keys[i];
            assert(keys@.contains(t));
            let sp = *self.range_algebra.span(t).unwrap();
            proof {
                lemma_secs_monotone(sp.start, sp.end);
                assert(keys@.subrange(0, i + 1).drop_last() == keys@.subrange(0, i as int));
            }
            let d: u64 = (sp.end.secs - sp.start.secs) as u64;
            total = total + d;
            i = i + 1;
        }
        proof {
            assert(keys@.subrange(0, keys@.len() as int) == keys@);
        }
        let average = total / (keys.len() as u64);
        Ok(StretchUnit::canonical_from_average_seconds(average))
    }

    /// Places `task_id` and, depth first, everything that depends on it,
    /// each in a lane near its parent's where its range meets no other.
    fn dfs_assign_lane(&self, task_id: TaskId, preferred: usize, asg: &mut Vec<Option<usize>>,
        occ: &mut Vec<Vec<(TaskId, StretchRange)>>, st: &IdMap<Stretch>, Ghost(fuel): Ghost<nat>) -> (r: Result<(), GridAlgebraError>)
        requires
            free_count(old(asg)@) < fuel,
            occupancy_ok(old(asg)@, old(occ)@, st@),
            old(occ)@.len() <= lane_bound(old(asg)@),
            preferred <= lane_bound(old(asg)@),
            forall|t: TaskId| #[trigger] st@.contains_key(t) ==> st@[t].range.spec_start() < st@[t].range.spec_end(),
        ensures
            r matches Err(e) ==> e is TaskNotFound,
            r is Ok ==> occupancy_ok(final(asg)@, final(occ)@, st@),
            r is Ok ==> final(occ)@.len() <= lane_bound(final(asg)@),
            r is Ok ==> final(asg)@.len() == 256,
            r is Ok ==> forall|i: int| 0 <= i < 256 && old(asg)@[i] is Some ==> #[trigger] final(asg)@[i] == old(asg)@[i],
            r is Ok ==> forall|i: int| 0 <= i < 256 && final(asg)@[i] is None ==> #[trigger] old(asg)@[i] is None,
            r is Ok ==> final(asg)@[task_id.0 as int] is Some,
            r is Ok && old(asg)@[task_id.0 as int] is None ==> forall|d: TaskId|
                #[trigger] self.spec_range_algebra().spec_graph().edge(task_id, d) ==> final(asg)@[d.0 as int] is Some,
            old(asg)@[task_id.0 as int] is Some ==> r is Ok && final(asg)@ == old(asg)@ && final(occ)@ == old(occ)@,
            r matches Err(GridAlgebraError::TaskNotFound { task_id: x }) ==> !st@.contains_key(x)
                && reaches(self.spec_range_algebra().spec_graph(), false, task_id, x),
            (forall|x: TaskId| #[trigger] reaches(self.spec_range_algebra().spec_graph(), false, task_id, x)
                ==> st@.contains_key(x)) ==> r is Ok,
            r is Ok ==> forall|t: TaskId| lanes_closed_at(self.spec_range_algebra().spec_graph(), old(asg)@, t)
                ==> #[trigger] lanes_closed_at(self.spec_range_algebra().spec_graph(), final(asg)@, t),
            r is Ok && old(asg)@[task_id.0 as int] is None ==> final(asg)@[task_id.0 as int] == Some(spiral_lane(
                occ_view(old(occ)@),
                preferred_lane(old(asg)@, dependency_order(self.spec_range_algebra().spec_graph(), task_id), preferred as int),
                st@[task_id].range,
            ) as usize),
            (r is Ok) == (dfs_lanes(self.spec_range_algebra().spec_graph(), st@, task_id, preferred as int, (old(asg)@, occ_view(old(occ)@)), fuel) is Some),
            r is Ok ==> dfs_lanes(self.spec_range_algebra().spec_graph(), st@, task_id, preferred as int, (old(asg)@, occ_view(old(occ)@)), fuel)
                == Some((final(asg)@, occ_view(final(occ)@))),
        decreases free_count(old(asg)@),
    {
        let ghost a0 = asg@;
        if asg[task_id.0 as usize].is_some() {
            return Ok(());
        }
        let stretch = match st.get(task_id) {
            Some(s) => *s,
            None => {
                proof {
                    lemma_reaches_refl(self.spec_range_algebra().spec_graph(), false, task_id);
                }
                return Err(GridAlgebraError::TaskNotFound { task_id });
            },
        };
        let graph = self.range_algebra.graph();
        self.range_algebra.check();
        let deps = sort_ids(&graph.get_dependencies(task_id));
        let mut pref: usize = preferred;
        if deps.len() > 1 {
            let mut parent_lanes: Vec<Keyed> = Vec::new();
            let mut k: usize = 0;
            proof {
                assert(deps@.subrange(0, 0) =~= Seq::<TaskId>::empty());
            }
            while k < deps.len()
                invariant
                    k <= deps@.len(),
                    asg@ == a0,
                    occupancy_ok(asg@, occ@, st@),
                    forall|q: int| 0 <= q < parent_lanes@.len() ==> (#[trigger] parent_lanes@[q]).0 < occ@.len(),
                    parent_lanes@ == parent_entries(a0, deps@.subrange(0, k as int)),
                decreases deps@.len() - k,
            {
                let d = deps[k];
                proof {
                    let s1 = deps@.subrange(0, k + 1);
                    assert(s1.drop_last() =~= deps@.subrange(0, k as int));
                    assert(s1.last() == d);
                }
                match asg[d.0 as usize] {
                    Some(l) => {
                        proof {
                            assert(asg@[d.0 as int] is Some);
                        }
                        parent_lanes.push((l as u64, d, 0));
                    },
                    None => {},
                }
                k = k + 1;
            }
            proof {
                assert(deps@.subrange(0, deps@.len() as int) =~= deps@);
            }
            if parent_lanes.len() > 0 {
                let sorted = stable_sort(&parent_lanes);
                let mid = sorted[sorted.len() / 2];
                proof {
                    assert(sorted@.contains(mid)) by { assert(sorted@[(sorted@.len() / 2) as int] == mid); }
                    let q = choose|q: int| 0 <= q < parent_lanes@.len() && parent_lanes@[q] == mid;
                    assert(parent_lanes@[q].0 < occ@.len());
                }
                pref = mid.0 as usize;
            }
        }
        assert(pref <= lane_bound(a0));
        assert(pref == preferred_lane(a0, dependency_order(self.spec_range_algebra().spec_graph(), task_id), preferred as int));
        let lane = find_available_lane(pref, &stretch.range, occ);
        let ghost occ0 = occ@;
        while occ.len() <= lane
            invariant
                occ@.len() >= occ0.len(),
                occ@.len() <= occ0.len() || occ@.len() <= lane + 1,
                occ@.subrange(0, occ0.len() as int) == occ0,
                forall|l: int| occ0.len() <= l < occ@.len() ==> (#[trigger] occ@[l])@.len() == 0,
            decreases lane + 1 - occ@.len(),
        {
            occ.push(Vec::new());
        }
        proof {
            assert forall|l: int| 0 <= l < occ0.len() implies #[trigger] occ@[l] == occ0[l] by {
                assert(occ@.subrange(0, occ0.len() as int)[l] == occ@[l]);
            }
        }
        let ghost occ1 = occ@;
        asg.set(task_id.0 as usize, Some(lane));
        let mut inner: Vec<(TaskId, StretchRange)> = Vec::new();
        occ.set_and_swap(lane, &mut inner);
        let ghost in0 = inner@;
        inner.push((task_id, stretch.range));
        occ.set_and_swap(lane, &mut inner);
        proof {
            let a1 = asg@;
            let o2 = occ@;
            assert(a1 == a0.update(task_id.0 as int, Some(lane)));
            assert(o2 == occ1.update(lane as int, o2[lane as int]));
            assert(o2[lane as int]@ == in0.push((task_id, stretch.range)));
            assert(in0 == occ1[lane as int]@);
            lemma_free_count(a0, a1, task_id.0 as int);
            lemma_place_view(occ0, occ1, o2, lane as int, (task_id, stretch.range));
            assert(stretch == st@[task_id]);
            // every entry has its task's lane and range
            assert forall|l: int, k: int| 0 <= l < o2.len() && 0 <= k < o2[l]@.len() implies {
                let e = #[trigger] o2[l]@[k];
                &&& a1[e.0.0 as int] == Some(l as usize)
                &&& st@.contains_key(e.0)
                &&& e.1 == st@[e.0].range
                &&& e.1.spec_start() < e.1.spec_end()
            } by {
                let e = o2[l]@[k];
                if l == lane && k == in0.len() {
                    assert(e == (task_id, stretch.range));
                } else {
                    assert(e == occ1[l]@[k]);
                    if l < occ0.len() {
                        assert(occ1[l] == occ0[l]);
                        assert(a0[e.0.0 as int] == Some(l as usize));
                        assert(e.0 != task_id);
                    } else {
                        assert(occ1[l]@.len() == 0);
                    }
                }
            }
            assert forall|t: TaskId| #[trigger] a1[t.0 as int] is Some implies {
                let l = a1[t.0 as int]->Some_0 as int;
                &&& l < o2.len()
                &&& exists|k: int| 0 <= k < o2[l]@.len() && (#[trigger] o2[l]@[k]).0 == t
            } by {
                if t == task_id {
                    assert(a1[t.0 as int] == Some(lane));
                    assert(lane < o2.len());
                    assert(o2[lane as int]@[in0.len() as int].0 == t);
                } else {
                    assert(t.0 != task_id.0);
                    assert(a1[t.0 as int] == a0[t.0 as int]);
                    assert(a0[t.0 as int] is Some);
                    let l = a0[t.0 as int]->Some_0 as int;
                    assert(l < occ0.len());
                    let k = choose|k: int| 0 <= k < occ0[l]@.len() && (#[trigger] occ0[l]@[k]).0 == t;
                    assert(occ1[l] == occ0[l]);
                    assert(l != lane ==> o2[l] == occ1[l]);
                    assert(o2[l]@[k] == occ0[l]@[k]);
                }
            }
            assert forall|l: int, a: int, b: int| 0 <= l < o2.len() && 0 <= a < o2[l]@.len() && 0 <= b < o2[l]@.len() && a != b
                implies !ranges_overlap(#[trigger] o2[l]@[a].1, #[trigger] o2[l]@[b].1) by {
                if l == lane {
                    if a == in0.len() {
                        assert(o2[l]@[b] == occ1[l]@[b]);
                        if lane < occ0.len() {
                            assert(occ1[l] == occ0[l]);
                            assert(!ranges_overlap(stretch.range, occ0[l]@[b].1));
                        }
                    } else if b == in0.len() {
                        assert(o2[l]@[a] == occ1[l]@[a]);
                        if lane < occ0.len() {
                            assert(occ1[l] == occ0[l]);
                            assert(!ranges_overlap(stretch.range, occ0[l]@[a].1));
                        }
                    } else {
                        assert(o2[l]@[a] == occ1[l]@[a] && o2[l]@[b] == occ1[l]@[b]);
                        if l < occ0.len() {
                            assert(occ1[l] == occ0[l]);
                        }
                    }
                } else {
                    assert(o2[l] == occ1[l]);
                    if l < occ0.len() {
                        assert(occ1[l] == occ0[l]);
                    }
                }
            }
            assert(occupancy_ok(a1, o2, st@));
            assert(o2.len() <= lane_bound(a1));
            assert(lane <= lane_bound(a1));
        }
        let dependents = sort_ids(&graph.get_dependents(task_id));
        let ghost s_start: LaneState = (asg@, occ_view(occ@));
        proof {
            assert(occ0 == old(occ)@);
            assert(s_start == place_task((a0, occ_view(occ0)), task_id, lane as int, st@[task_id].range));
            assert(dfs_lanes(self.spec_range_algebra().spec_graph(), st@, task_id, preferred as int, (a0, occ_view(occ0)), fuel)
                == dfs_children(self.spec_range_algebra().spec_graph(), st@, dependents@, 0, lane as int, s_start, (fuel - 1) as nat));
        }
        proof {
            let g = self.spec_range_algebra().spec_graph();
            assert forall|t: TaskId| t != task_id && lanes_closed_at(g, a0, t) implies #[trigger] lanes_closed_at(g, asg@, t) by {
                if asg@[t.0 as int] is Some {
                    assert(t.0 != task_id.0);
                    assert(a0[t.0 as int] is Some);
                    assert forall|d: TaskId| #[trigger] g.edge(t, d) implies asg@[d.0 as int] is Some by {
                        assert(a0[d.0 as int] is Some);
                    }
                }
            }
        }
        let mut j: usize = 0;
        while j < dependents.len()
            invariant
                j <= dependents@.len(),
                occupancy_ok(asg@, occ@, st@),
                occ@.len() <= lane_bound(asg@),
                lane <= lane_bound(asg@),
                asg@.len() == 256,
                asg@[task_id.0 as int] is Some,
                asg@[task_id.0 as int] == Some(lane),
                a0[task_id.0 as int] is None,
                a0.len() == 256,
                a0 == old(asg)@,
                forall|i: int| 0 <= i < 256 && a0[i] is Some ==> #[trigger] asg@[i] == a0[i],
                forall|i: int| 0 <= i < 256 && asg@[i] is None ==> #[trigger] a0[i] is None,
                forall|t: TaskId| #[trigger] st@.contains_key(t) ==> st@[t].range.spec_start() < st@[t].range.spec_end(),
                *graph == self.spec_range_algebra().spec_graph(),
                forall|d: TaskId| #[trigger] dependents@.contains(d) <==> graph.edge(task_id, d),
                forall|q: int| 0 <= q < j ==> asg@[(#[trigger] dependents@[q]).0 as int] is Some,
                forall|t: TaskId| t != task_id && lanes_closed_at(self.spec_range_algebra().spec_graph(), a0, t)
                    ==> #[trigger] lanes_closed_at(self.spec_range_algebra().spec_graph(), asg@, t),
                fuel >= 1,
                free_count(asg@) + 1 < fuel,
                dependents@ == sorted_ids(self.spec_range_algebra().spec_graph().succs(task_id)),
                dfs_children(self.spec_range_algebra().spec_graph(), st@, dependents@, 0, lane as int, s_start, (fuel - 1) as nat)
                    == dfs_children(self.spec_range_algebra().spec_graph(), st@, dependents@, j as int, lane as int, (asg@, occ_view(occ@)), (fuel - 1) as nat),
                dfs_lanes(self.spec_range_algebra().spec_graph(), st@, task_id, preferred as int, (a0, occ_view(old(occ)@)), fuel)
                    == dfs_children(self.spec_range_algebra().spec_graph(), st@, dependents@, 0, lane as int, s_start, (fuel - 1) as nat),
            decreases dependents@.len() - j,
        {
            proof {
                lemma_free_count(a0, asg@, task_id.0 as int);
            }
            let ghost ab = asg@;
            let ghost sb: LaneState = (asg@, occ_view(occ@));
            let d = dependents[j];
            match self.dfs_assign_lane(d, lane, asg, occ, st, Ghost((fuel - 1) as nat)) {
                Ok(()) => {},
                Err(e) => {
                    proof {
                        assert(dfs_lanes(self.spec_range_algebra().spec_graph(), st@, d, lane as int, sb, (fuel - 1) as nat) is None);
                        assert(dfs_children(self.spec_range_algebra().spec_graph(), st@, dependents@, j as int, lane as int, sb, (fuel - 1) as nat) is None);
                        let g = self.spec_range_algebra().spec_graph();
                        assert(dependents@.contains(d)) by { assert(dependents@[j as int] == d); }
                        let x = e->TaskNotFound_task_id;
                        lemma_reaches_refl(g, false, task_id);
                        lemma_reaches_step(g, false, task_id, task_id, d);
                        lemma_reaches_trans(g, task_id, d, x);
                    }
                    return Err(e);
                },
            }
            proof {
                assert(dfs_children(self.spec_range_algebra().spec_graph(), st@, dependents@, j as int, lane as int, sb, (fuel - 1) as nat)
                    == dfs_children(self.spec_range_algebra().spec_graph(), st@, dependents@, j + 1, lane as int, (asg@, occ_view(occ@)), (fuel - 1) as nat));
                lemma_free_count(ab, asg@, -1);
                assert forall|q: int| 0 <= q < j + 1 implies asg@[(#[trigger] dependents@[q]).0 as int] is Some by {
                    if q < j {
                        assert(ab[dependents@[q].0 as int] is Some);
                    }
                }
                let g = self.spec_range_algebra().spec_graph();
                assert forall|t: TaskId| t != task_id && lanes_closed_at(g, a0, t) implies #[trigger] lanes_closed_at(g, asg@, t) by {
                    assert(lanes_closed_at(g, ab, t));
                }
            }
            j = j + 1;
        }
        proof {
            assert forall|d: TaskId| #[trigger] graph.edge(task_id, d) implies asg@[d.0 as int] is Some by {
                assert(dependents@.contains(d));
                let m = choose|m: int| 0 <= m < dependents@.len() && dependents@[m] == d;
            }
            let g = self.spec_range_algebra().spec_graph();
            assert forall|t: TaskId| lanes_closed_at(g, a0, t) implies #[trigger] lanes_closed_at(g, asg@, t) by {
                if t == task_id {
                    assert forall|d: TaskId| #[trigger] g.edge(t, d) implies asg@[d.0 as int] is Some by {
                        assert(graph.edge(task_id, d));
                    }
                }
            }
        }
        Ok(())
    }

    /// How many lanes the tasks need side by side: the greedy count of
    /// lanes when the tasks are taken in order of start.
    fn count_overlapping_tasks(&self, tasks: &Vec<TaskId>, st: &IdMap<Stretch>) -> (r: usize)
        ensures
            r == overlap_count(tasks@, st@),
            r <= tasks@.len(),
    {
        if tasks.len() <= 1 {
            return tasks.len();
        }
        let mut keyed: Vec<Keyed> = Vec::new();
        let mut i: usize = 0;
        proof {
            assert(tasks@.subrange(0, 0) =~= Seq::<TaskId>::empty());
        }
        while i < tasks.len()
            invariant
                i <= tasks@.len(),
                keyed@ == keyed_of(tasks@.subrange(0, i as int), st@),
                keyed@.len() <= i,
            decreases tasks@.len() - i,
        {
            proof {
                let s1 = tasks@.subrange(0, i + 1);
                assert(s1.drop_last() =~= tasks@.subrange(0, i as int));
                assert(s1.last() == tasks@[i as int]);
            }
            match st.get(tasks[i]) {
                Some(s) => {
                    keyed.push((s.range.start() as u64, tasks[i], s.range.end()));
                },
                None => {},
            }
            i = i + 1;
        }
        proof {
            assert(tasks@.subrange(0, tasks@.len() as int) =~= tasks@);
        }
        let sorted = stable_sort(&keyed);
        let mut lane_ends: Vec<u8> = Vec::new();
        let mut k: usize = 0;
        proof {
            assert(sorted@.subrange(0, 0) =~= Seq::<Keyed>::empty());
        }
        while k < sorted.len()
            invariant
                k <= sorted@.len(),
                sorted@.len() <= tasks@.len(),
                lane_ends@ == first_fit(sorted@.subrange(0, k as int)),
                lane_ends@.len() <= k,
            decreases sorted@.len() - k,
        {
            let (start, _, end) = sorted[k];
            proof {
                let s1 = sorted@.subrange(0, k + 1);
                assert(s1.drop_last() =~= sorted@.subrange(0, k as int));
                assert(s1.last() == sorted@[k as int]);
            }
            let mut q: usize = 0;
            while q < lane_ends.len() && (lane_ends[q] as u64) > start
                invariant
                    q <= lane_ends@.len(),
                    forall|p: int| 0 <= p < q ==> #[trigger] lane_ends@[p] > start,
                decreases lane_ends@.len() - q,
            {
                q = q + 1;
            }
            proof {
                lemma_first_free(lane_ends@, start, q as int);
            }
            if q < lane_ends.len() {
                lane_ends.set(q, end);
            } else {
                lane_ends.push(end);
            }
            k = k + 1;
        }
        proof {
            assert(sorted@.subrange(0, sorted@.len() as int) =~= sorted@);
        }
        lane_ends.len()
    }

    /// The widest level of the tasks reached from `root`, breadth first,
    /// counted in lanes needed side by side; at least one.
    fn calculate_subtree_max_width(&self, root: TaskId, st: &IdMap<Stretch>) -> (r: usize)
        ensures
            r == subtree_width(self.spec_range_algebra().spec_graph(), root, st@),
            1 <= r <= 256,
    {
        self.range_algebra.check();
        let graph = self.range_algebra.graph();
        let mut visited = crate::analysis::no_flags();
        let mut queue: Vec<(TaskId, usize)> = Vec::new();
        queue.push((root, 0));
        visited.set(root.0 as usize, true);
        proof {
            assert forall|x: TaskId| #[trigger] visited@[x.0 as int] <==> firsts(queue@).contains(x) by {
                if x == root {
                    assert(firsts(queue@)[0] == x);
                } else {
                    assert(x.0 != root.0);
                    if firsts(queue@).contains(x) {
                        let m = choose|m: int| 0 <= m < 1 && firsts(queue@)[m] == x;
                    }
                }
            }
        }
        let ghost g = self.spec_range_algebra().spec_graph();
        let ghost q_init = queue@;
        let mut head: usize = 0;
        while head < queue.len()
            invariant
                head <= queue@.len(),
                queue@.len() >= 1,
                visited@.len() == 256,
                forall|x: TaskId| #[trigger] visited@[x.0 as int] <==> firsts(queue@).contains(x),
                firsts(queue@).no_duplicates(),
                queue@.len() <= 256,
                forall|i: int| 0 <= i < queue@.len() ==> (#[trigger] queue@[i]).1 <= i,
                *graph == g,
                bfs_record(g, q_init, 0, 257) == bfs_record(g, queue@, head as nat, (257 - head) as nat),
            decreases 256 - queue@.len(), queue@.len() - head,
        {
            let ghost q_before = queue@;
            let ghost h_before = head as nat;
            let (t, depth) = queue[head];
            head = head + 1;
            let dependents = sort_ids(&graph.get_dependents(t));
            let ghost qlen0 = queue@.len();
            let mut k: usize = 0;
            proof {
                assert(dependents@.subrange(0, 0) =~= Seq::<TaskId>::empty());
            }
            while k < dependents.len()
                invariant
                    k <= dependents@.len(),
                    0 < head <= queue@.len(),
                    depth <= head - 1,
                    queue@.len() >= qlen0,
                    queue@ == bfs_expand(q_before, depth, dependents@.subrange(0, k as int)),
                    visited@.len() == 256,
                    forall|x: TaskId| #[trigger] visited@[x.0 as int] <==> firsts(queue@).contains(x),
                    firsts(queue@).no_duplicates(),
                    queue@.len() <= 256,
                    forall|i: int| 0 <= i < queue@.len() ==> (#[trigger] queue@[i]).1 <= i,
                decreases dependents@.len() - k,
            {
                let d = dependents[k];
                proof {
                    let s1 = dependents@.subrange(0, k + 1);
                    assert(s1.drop_last() =~= dependents@.subrange(0, k as int));
                    assert(s1.last() == d);
                }
                if !visited[d.0 as usize] {
                    let ghost q0 = queue@;
                    let ghost v0 = visited@;
                    proof {
                        let f0 = firsts(q0);
                        assert(!f0.contains(d));
                        assert(firsts(q0.push((d, (depth + 1) as usize))) == f0.push(d));
                        assert(f0.push(d).no_duplicates()) by {
                            assert forall|a: int, b: int| 0 <= a < f0.len() + 1 && 0 <= b < f0.len() + 1 && a != b
                                implies f0.push(d)[a] != f0.push(d)[b] by {
                                if a == f0.len() {
                                    assert(f0.push(d)[b] == f0[b]);
                                } else if b == f0.len() {
                                    assert(f0.push(d)[a] == f0[a]);
                                } else {
                                    assert(f0[a] != f0[b]);
                                }
                            }
                        }
                        crate::traversal::lemma_distinct_bounded(f0.push(d));
                    }
                    visited.set(d.0 as usize, true);
                    queue.push((d, depth + 1));
                    proof {
                        let f0 = firsts(q0);
                        let f1 = firsts(queue@);
                        assert(f1 == f0.push(d));
                        assert forall|x: TaskId| #[trigger] visited@[x.0 as int] <==> f1.contains(x) by {
                            if x == d {
                                assert(f1[f0.len() as int] == x);
                            } else {
                                assert(visited@[x.0 as int] == v0[x.0 as int]);
                                if f1.contains(x) {
                                    let m = choose|m: int| 0 <= m < f1.len() && f1[m] == x;
                                    assert(f0[m] == x);
                                }
                                if f0.contains(x) {
                                    let m = choose|m: int| 0 <= m < f0.len() && f0[m] == x;
                                    assert(f1[m] == x);
                                }
                            }
                        }
                        assert forall|i: int| 0 <= i < queue@.len() implies (#[trigger] queue@[i]).1 <= i by {
                            if i < q0.len() {
                                assert(queue@[i] == q0[i]);
                            }
                        }
                    }
                }
                k = k + 1;
            }
            proof {
                assert(dependents@.subrange(0, dependents@.len() as int) =~= dependents@);
                assert(q_before[h_before as int] == (t, depth));
                assert(bfs_record(g, q_before, h_before, (257 - h_before) as nat)
                    == bfs_record(g, queue@, head as nat, (257 - head) as nat));
            }
        }
        proof {
            assert(bfs_record(g, queue@, head as nat, (257 - head) as nat) == queue@);
        }
        let mut max_depth: usize = 0;
        let mut i: usize = 0;
        while i < queue.len()
            invariant
                i <= queue@.len(),
                queue@.len() <= 256,
                max_depth <= 256,
                max_depth == depth_upto(queue@, i as nat),
                forall|q: int| 0 <= q < queue@.len() ==> (#[trigger] queue@[q]).1 <= q,
            decreases queue@.len() - i,
        {
            if queue[i].1 > max_depth {
                max_depth = queue[i].1;
            }
            i = i + 1;
        }
        let mut max_width: usize = 1;
        let mut d: usize = 0;
        while d <= max_depth
            invariant
                d <= max_depth + 1,
                max_depth <= 256,
                queue@.len() <= 256,
                1 <= max_width <= 256,
                max_width == widest_level(queue@, st@, d as nat),
            decreases max_depth + 1 - d,
        {
            let mut level: Vec<TaskId> = Vec::new();
            let mut q: usize = 0;
            proof {
                assert(queue@.subrange(0, 0) =~= Seq::<(TaskId, usize)>::empty());
            }
            while q < queue.len()
                invariant
                    q <= queue@.len(),
                    level@.len() <= q,
                    level@ == level_of(queue@.subrange(0, q as int), d as int),
                decreases queue@.len() - q,
            {
                proof {
                    let s1 = queue@.subrange(0, q + 1);
                    assert(s1.drop_last() =~= queue@.subrange(0, q as int));
                    assert(s1.last() == queue@[q as int]);
                }
                if queue[q].1 == d {
                    level.push(queue[q].0);
                }
                q = q + 1;
            }
            proof {
                assert(queue@.subrange(0, queue@.len() as int) =~= queue@);
            }
            if level.len() > 0 {
                let w = self.count_overlapping_tasks(&level, st);
                if w > max_width {
                    max_width = w;
                }
            }
            d = d + 1;
        }
        max_width
    }

    /// The lane of every task reached from a root: the roots in order of
    /// start, each subtree spaced from the last by its width and one more.
    fn assign_lanes_dfs(&self, st: &IdMap<Stretch>) -> (r: Result<Vec<Option<usize>>, GridAlgebraError>)
        requires
            forall|t: TaskId| #[trigger] st@.contains_key(t) ==> st@[t].range.spec_start() < st@[t].range.spec_end(),
        ensures
            r matches Err(e) ==> e is TaskNotFound,
            r matches Ok(asg) ==> asg@.len() == 256 && lanes_apart(asg@, st@),
            r matches Ok(asg) ==> forall|t: TaskId| (#[trigger] asg@[t.0 as int]) is Some ==> st@.contains_key(t),
            r matches Ok(asg) ==> forall|t: TaskId| #[trigger] self.spec_range_algebra().spec_graph().has_task(t)
                ==> asg@[t.0 as int] is Some,
            (forall|t: TaskId| #[trigger] self.spec_range_algebra().spec_graph().has_task(t) ==> st@.contains_key(t))
                ==> r is Ok,
            (r is Ok) == (lane_assignment(self.spec_range_algebra().spec_graph(), st@) is Some),
            r matches Ok(asg) ==> lane_assignment(self.spec_range_algebra().spec_graph(), st@) == Some(asg@),
    {
        self.range_algebra.check();
        let graph = self.range_algebra.graph();
        let roots = graph.root_tasks();
        proof {
            graph.lemma_task_seq();
            graph.task_seq().lemma_filter_len(crate::graph::root_fn(*graph));
        }
        let mut keyed: Vec<Keyed> = Vec::new();
        let mut i: usize = 0;
        while i < roots.len()
            invariant
                i <= roots@.len(),
                keyed@.len() == i,
                forall|q: int| 0 <= q < i ==> (#[trigger] keyed@[q]).1 == roots@[q],
                forall|q: int| 0 <= q < i ==> #[trigger] keyed@[q] == root_entries(roots@, st@)[q],
            decreases roots@.len() - i,
        {
            let start: u64 = match st.get(roots[i]) {
                Some(s) => s.range.start() as u64,
                None => 0,
            };
            keyed.push((start, roots[i], 0));
            i = i + 1;
        }
        let sorted = stable_sort(&keyed);
        let mut widths: Vec<usize> = Vec::new();
        let mut k: usize = 0;
        while k < sorted.len()
            invariant
                k <= sorted@.len(),
                widths@.len() == k,
                forall|q: int| 0 <= q < k ==> #[trigger] widths@[q] <= 256,
                forall|q: int| 0 <= q < k ==> #[trigger] widths@[q] == subtree_width(self.spec_range_algebra().spec_graph(), sorted@[q].1, st@),
            decreases sorted@.len() - k,
        {
            let w = self.calculate_subtree_max_width(sorted[k].1, st);
            widths.push(w);
            k = k + 1;
        }
        let mut asg: Vec<Option<usize>> = Vec::new();
        let mut c: usize = 0;
        while c < 256
            invariant
                c <= 256,
                asg@.len() == c,
                forall|x: int| 0 <= x < c ==> asg@[x] is None,
            decreases 256 - c,
        {
            asg.push(None);
            c = c + 1;
        }
        let mut occ: Vec<Vec<(TaskId, StretchRange)>> = Vec::new();
        proof {
            lemma_free_count(asg@, asg@, -1);
            assert(occupancy_ok(asg@, occ@, st@));
        }
        let ghost g = self.spec_range_algebra().spec_graph();
        let ghost all_covered = forall|t: TaskId| #[trigger] g.has_task(t) ==> st@.contains_key(t);
        proof {
            assert(keyed@ =~= root_entries(roots@, st@));
            assert(sorted@ == root_order(g, st@));
            assert(asg@ =~= no_lanes().0);
            assert(occ_view(occ@) =~= no_lanes().1);
        }
        proof {
            assert forall|q: int| 0 <= q < sorted@.len() implies g.has_task((#[trigger] sorted@[q]).1) by {
                assert(sorted@.contains(sorted@[q]));
                let k = choose|k: int| 0 <= k < keyed@.len() && keyed@[k] == sorted@[q];
                assert(roots@.contains(roots@[k]));
                g.task_seq().lemma_filter_contains_rev(crate::graph::root_fn(g), roots@[k]);
            }
        }
        let mut current_lane: usize = 0;
        let mut j: usize = 0;
        while j < sorted.len()
            invariant
                j <= sorted@.len(),
                sorted@.len() <= 256,
                widths@.len() == sorted@.len(),
                forall|q: int| 0 <= q < widths@.len() ==> #[trigger] widths@[q] <= 256,
                current_lane <= 257 * j,
                asg@.len() == 256,
                occupancy_ok(asg@, occ@, st@),
                occ@.len() <= lane_bound(asg@),
                forall|t: TaskId| #[trigger] st@.contains_key(t) ==> st@[t].range.spec_start() < st@[t].range.spec_end(),
                g == self.spec_range_algebra().spec_graph(),
                *graph == g,
                g.wf(),
                forall|t: TaskId| #[trigger] lanes_closed_at(g, asg@, t),
                forall|q: int| 0 <= q < j ==> asg@[(#[trigger] sorted@[q]).1.0 as int] is Some,
                forall|q: int| 0 <= q < sorted@.len() ==> g.has_task((#[trigger] sorted@[q]).1),
                all_covered == (forall|t: TaskId| #[trigger] g.has_task(t) ==> st@.contains_key(t)),
                forall|q: int| 0 <= q < widths@.len() ==> #[trigger] widths@[q] == subtree_width(g, sorted@[q].1, st@),
                sorted@ == root_order(g, st@),
                place_roots(g, st@, sorted@, 0, 0, no_lanes())
                    == place_roots(g, st@, sorted@, j as int, current_lane as int, (asg@, occ_view(occ@))),
            decreases sorted@.len() - j,
        {
            proof {
                lemma_free_count(asg@, asg@, -1);
            }
            let ghost ab = asg@;
            let ghost sb: LaneState = (asg@, occ_view(occ@));
            let root = sorted[j].1;
            match self.dfs_assign_lane(root, current_lane, &mut asg, &mut occ, st, Ghost(257nat)) {
                Ok(()) => {},
                Err(e) => {
                    proof {
                        assert(place_roots(g, st@, sorted@, j as int, current_lane as int, sb) is None);
                        if all_covered {
                            assert forall|x: TaskId| #[trigger] reaches(g, false, root, x) implies st@.contains_key(x) by {
                                crate::analysis::lemma_reached_is_task(g, root, x);
                            }
                        }
                    }
                    return Err(e);
                },
            }
            proof {
                assert forall|t: TaskId| #[trigger] lanes_closed_at(g, asg@, t) by {
                    assert(lanes_closed_at(g, ab, t));
                }
                assert forall|q: int| 0 <= q < j + 1 implies asg@[(#[trigger] sorted@[q]).1.0 as int] is Some by {
                    if q < j {
                        assert(ab[sorted@[q].1.0 as int] is Some);
                    }
                }
            }
            proof {
                assert(place_roots(g, st@, sorted@, j as int, current_lane as int, sb)
                    == place_roots(g, st@, sorted@, j + 1, current_lane + widths@[j as int] + 1, (asg@, occ_view(occ@))));
            }
            current_lane = current_lane + widths[j] + 1;
            j = j + 1;
        }
        proof {
            assert(place_roots(g, st@, sorted@, j as int, current_lane as int, (asg@, occ_view(occ@))) == Some((asg@, occ_view(occ@))));
            lemma_lanes_apart(asg@, occ@, st@);
            assert forall|t: TaskId| #[trigger] g.has_task(t) implies asg@[t.0 as int] is Some by {
                crate::analysis::lemma_reached_from_root(g, t);
                let r = choose|r: TaskId| g.has_task(r) && !crate::graph::has_incoming(g, r) && #[trigger] reaches(g, false, r, t);
                g.lemma_task_seq();
                assert(g.task_seq().contains(r));
                let k = choose|k: int| 0 <= k < g.task_seq().len() && g.task_seq()[k] == r;
                assert(crate::graph::root_fn(g)(g.task_seq()[k]));
                g.task_seq().lemma_filter_contains(crate::graph::root_fn(g), k);
                assert(roots@.contains(r));
                let m = choose|m: int| 0 <= m < roots@.len() && roots@[m] == r;
                assert(keyed@[m].1 == r);
                assert(keyed@.contains(keyed@[m]));
                assert(sorted@.contains(keyed@[m]));
                let q = choose|q: int| 0 <= q < sorted@.len() && sorted@[q] == keyed@[m];
                assert(asg@[sorted@[q].1.0 as int] is Some);
                lemma_closed_lanes_reach(g, asg@, r, t);
            }
        }
        Ok(asg)
    }

    /// Lays the tasks out on the grid.
    ///
    /// The unit is one step below the largest unit no longer than the
    /// average length of the spans; every task gets the units from its start
    /// (rounded down) to its end (rounded up, at least one unit) counted from
    /// the earliest start, and a lane; tasks that share a lane never share a
    /// unit of time. The lanes are laid out depth first from the roots in
    /// order of start: each root prefers the lane past the bands of the
    /// subtrees before it, each task its parent's lane (the middle lane of its
    /// dependencies when it has several), and a task whose preferred lane is
    /// taken at its time searches outwards from it.
    pub fn compute(self) -> (r: Result<GridAlgebra, GridAlgebraError>)
        ensures
            self.spec_range_algebra().span_keys().len() == 0 <==> r == Err::<GridAlgebra, GridAlgebraError>(GridAlgebraError::NoTasks),
            self.spec_range_algebra().span_keys().len() > 0 ==> (r matches Err(GridAlgebraError::InvalidTimeRange { .. })
                <==> !all_start_in_grid(self.spec_range_algebra(), grid_unit(self.spec_range_algebra().span_map(), self.spec_range_algebra().span_keys()))),
            r matches Err(GridAlgebraError::InvalidTimeRange { start, end }) ==> start_error(self.spec_range_algebra(),
                grid_unit(self.spec_range_algebra().span_map(), self.spec_range_algebra().span_keys()),
                GridAlgebraError::InvalidTimeRange { start, end }),
            r matches Ok(ga) ==> grid_ok(ga, self.spec_range_algebra()),
            r matches Ok(ga) ==> lanes_laid_out(ga),
            (self.spec_range_algebra().span_keys().len() > 0 && all_start_in_grid(self.spec_range_algebra(),
                grid_unit(self.spec_range_algebra().span_map(), self.spec_range_algebra().span_keys()))) ==> r is Ok,
    {
        if self.range_algebra.task_count() == 0 {
            return Err(GridAlgebraError::NoTasks);
        }
        let unit = match self.determine_time_scale_unit() {
            Ok(u) => u,
            Err(e) => { return Err(e); },
        };
        let stretches = match self.calculate_task_stretches(unit) {
            Ok(s) => s,
            Err(e) => { return Err(e); },
        };
        let ghost ra = self.range_algebra;
        self.range_algebra.check();
        proof {
            assert forall|t: TaskId| #[trigger] stretches@.contains_key(t) implies
                stretches@[t].range.spec_start() < stretches@[t].range.spec_end() by {
                assert(range_fits(stretches@[t].range, ra.span_map()[t], origin_of(ra), unit));
            }
            assert forall|t: TaskId| #[trigger] ra.spec_graph().has_task(t) implies stretches@.contains_key(t) by {
                assert(ra.span_map().contains_key(t));
            }
        }
        let asg = match self.assign_lanes_dfs(&stretches) {
            Ok(a) => a,
            Err(e) => { return Err(e); },
        };
        proof {
            assert forall|t: TaskId| #[trigger] stretches@.contains_key(t) implies asg@[t.0 as int] is Some by {
                assert(ra.span_map().contains_key(t));
                assert(ra.spec_graph().has_task(t));
            }
        }
        proof { stretches.lemma_key_seq(); }
        let keys = stretches.keys();
        let mut cells: IdMap<Cell> = IdMap::new();
        let ghost mut lanes: Map<TaskId, int> = Map::empty();
        let mut max_x: u8 = 0;
        let mut max_y: u8 = 0;
        let mut i: usize = 0;
        while i < keys.len()
            invariant
                i <= keys@.len(),
                ra == self.range_algebra,
                ra.span_keys().len() > 0,
                unit == grid_unit(ra.span_map(), ra.span_keys()),
                all_start_in_grid(ra, unit),
                stretches_fit(ra, unit, stretches@),
                keys@ == stretches.key_seq(),
                strictly_increasing(keys@),
                forall|t: TaskId| #[trigger] keys@.contains(t) <==> stretches@.contains_key(t),
                asg@.len() == 256,
                lanes_apart(asg@, stretches@),
                forall|t: TaskId| #[trigger] stretches@.contains_key(t) ==> asg@[t.0 as int] is Some,
                forall|t: TaskId| #[trigger] cells@.contains_key(t) <==> keys@.subrange(0, i as int).contains(t),
                forall|t: TaskId| #[trigger] lanes.contains_key(t) <==> cells@.contains_key(t),
                forall|t: TaskId| #[trigger] cells@.contains_key(t) ==> lanes[t] >= 0 && asg@[t.0 as int] == Some(lanes[t] as usize)
                    && cells@[t].stretch == stretches@[t] && cells@[t].lane.0 == (lanes[t] as usize) as u8
                    && cells@[t].stretch.range.spec_end() <= max_x && cells@[t].lane.0 <= max_y,
                i == 0 ==> max_x == 0 && max_y == 0,
                i > 0 ==> exists|t: TaskId| #[trigger] cells@.contains_key(t) && cells@[t].stretch.range.spec_end() == max_x,
                i > 0 ==> exists|t: TaskId| #[trigger] cells@.contains_key(t) && cells@[t].lane.0 == max_y,
            decreases keys@.len() - i,
        {
            let t = keys[i];
            assert(keys@.contains(t));
            let stretch = *stretches.get(t).unwrap();
            let lane = match asg[t.0 as usize] {
                Some(l) => l,
                None => {
                    return Err(GridAlgebraError::LaneAssignmentFailed { task_id: t });
                },
            };
            let cell = Cell { stretch, lane: LaneId(lane as u8) };
            let ghost c0 = cells@;
            let _ = cells.insert(t, cell);
            proof {
                lanes = lanes.insert(t, lane as int);
                let s0 = keys@.subrange(0, i as int);
                let s1 = keys@.subrange(0, i + 1);
                assert(s1 == s0.push(t));
                assert(!s0.contains(t)) by {
                    if s0.contains(t) {
                        let q = choose|q: int| 0 <= q < s0.len() && s0[q] == t;
                        assert(keys@[q].0 < keys@[i as int].0);
                    }
                }
                assert forall|x: TaskId| #[trigger] cells@.contains_key(x) <==> s1.contains(x) by {
                    if s1.contains(x) && x != t {
                        let q = choose|q: int| 0 <= q < s1.len() && s1[q] == x;
                        assert(s0[q] == x);
                    }
                    if s0.contains(x) {
                        let q = choose|q: int| 0 <= q < s0.len() && s0[q] == x;
                        assert(s1[q] == x);
                    }
                    if x == t {
                        assert(s1[i as int] == x);
                    }
                }
            }
            if stretch.range.end() > max_x {
                max_x = stretch.range.end();
            }
            if (lane as u8) > max_y {
                max_y = lane as u8;
            }
            proof {
                assert(cells@.contains_key(t));
                assert(cells@[t] == cell);
                if cell.stretch.range.spec_end() != max_x {
                    let w = choose|w: TaskId| #[trigger] c0.contains_key(w) && c0[w].stretch.range.spec_end() == max_x;
                    assert(w != t);
                    assert(cells@[w] == c0[w]);
                    assert(cells@.contains_key(w));
                }
                if cell.lane.0 != max_y {
                    let w2 = choose|w: TaskId| #[trigger] c0.contains_key(w) && c0[w].lane.0 == max_y;
                    assert(w2 != t);
                    assert(cells@[w2] == c0[w2]);
                    assert(cells@.contains_key(w2));
                }
            }
            i = i + 1;
        }
        proof {
            assert(keys@.subrange(0, keys@.len() as int) == keys@);
            let k0 = ra.span_keys()[0];
            ra.lemma_span_keys();
            assert(ra.span_keys().contains(k0));
            assert(ra.span_map().contains_key(k0));
            assert(keys@.contains(k0));
            assert(keys@.len() > 0);
        }
        let total_lanes: usize = if max_y == 0 && keys.len() > 0 { 1 } else { max_y as usize + 1 };
        let ga = GridAlgebra {
            range_algebra: self.range_algebra,
            time_unit: unit,
            tasks: cells,
            total_lanes,
            max_x_axis: max_x,
            max_y_axis: max_y,
            lanes: Ghost(lanes),
        };
        proof {
            assert forall|a: TaskId, b: TaskId| a != b && #[trigger] lanes.contains_key(a) && #[trigger] lanes.contains_key(b)
                && lanes[a] == lanes[b] implies !ranges_overlap(cells@[a].stretch.range, cells@[b].stretch.range) by {
                assert(asg@[a.0 as int] == asg@[b.0 as int]);
            }
            assert forall|t: TaskId| #[trigger] cells@.contains_key(t) <==> ra.span_map().contains_key(t) by {
                assert(keys@.contains(t) <==> stretches@.contains_key(t));
            }
            let cm = ga.cell_map();
            let lp = ga.lane_positions();
            assert(cm == cells@);
            assert(lp == lanes);
            assert(ga.spec_range_algebra() == ra);
            assert(ga.spec_time_unit() == unit);
            assert forall|t: TaskId| #[trigger] cm.contains_key(t) implies cm[t].stretch.unit == unit
                && range_fits(cm[t].stretch.range, ra.span_map()[t], origin_of(ra), unit)
                && cm[t].lane.0 == (lp[t] as usize) as u8
                && lp[t] >= 0 by {
                assert(stretches@.contains_key(t));
            }
            assert(ga.spec_total_lanes() == ga.spec_max_y() + 1);
            assert(grid_stretches(ga) =~= stretches@) by {
                assert forall|t: TaskId| #[trigger] grid_stretches(ga).contains_key(t) <==> stretches@.contains_key(t) by {
                    assert(keys@.contains(t) <==> stretches@.contains_key(t));
                }
                assert forall|t: TaskId| #[trigger] grid_stretches(ga).contains_key(t) implies grid_stretches(ga)[t] == stretches@[t] by {
                    assert(cm[t].stretch == stretches@[t]);
                }
            }
            assert forall|t: TaskId| #[trigger] ga.lane_positions().contains_key(t) implies
                asg@[t.0 as int] == Some(ga.lane_positions()[t] as usize) by {
                assert(cells@.contains_key(t));
            }
        }
        Ok(ga)
    }

    /// The earliest start of the spans, in whole seconds.
    fn reference_time(&self) -> (r: i64)
        requires
            self.spec_range_algebra().span_keys().len() > 0,
        ensures
            r == earliest_start(self.spec_range_algebra().span_map(), self.spec_range_algebra().span_keys()),
            forall|t: TaskId| #[trigger] self.spec_range_algebra().span_map().contains_key(t)
                ==> r <= self.spec_range_algebra().span_map()[t].start.secs,
            MIN_TIMESTAMP <= r <= MAX_TIMESTAMP,
    {
        self.range_algebra.check();
        let keys = self.range_algebra.task_ids();
        let ghost m = self.range_algebra.span_map();
        assert(keys@.contains(keys@[0]));
        let mut best: i64 = self.range_algebra.span(keys[0]).unwrap().start.secs;
        let mut i: usize = 1;
        while i < keys.len()
            invariant
                1 <= i <= keys@.len(),
                keys@ == self.range_algebra.span_keys(),
                m == self.range_algebra.span_map(),
                forall|t: TaskId| #[trigger] keys@.contains(t) <==> m.contains_key(t),
                forall|t: TaskId| #[trigger] m.contains_key(t) ==> span_ok(m[t]),
                best == earliest_start(m, keys@.subrange(0, i as int)),
                forall|k: int| 0 <= k < i ==> best <= m[#[trigger] keys@[k]].start.secs,
                MIN_TIMESTAMP <= best <= MAX_TIMESTAMP,
            decreases keys@.len() - i,
        {
            let t = keys[i];
            assert(keys@.contains(t));
            let here = self.range_algebra.span(t).unwrap().start.secs;
            proof {
                assert(keys@.subrange(0, i + 1).drop_last() == keys@.subrange(0, i as int));
                assert(keys@.subrange(0, i + 1).last() == t);
            }
            if here < best {
                best = here;
            }
            i = i + 1;
        }
        proof {
            assert(keys@.subrange(0, keys@.len() as int) == keys@);
            assert forall|t: TaskId| #[trigger] m.contains_key(t) implies best <= m[t].start.secs by {
                assert(keys@.contains(t));
                let k = choose|k: int| 0 <= k < keys@.len() && keys@[k] == t;
                assert(best <= m[keys@[k]].start.secs);
            }
        }
        best
    }

    /// The stretch of every task in the grid of `unit` that starts at the
    /// earliest start.
    fn calculate_task_stretches(&self, unit: StretchUnit) -> (r: Result<IdMap<Stretch>, GridAlgebraError>)
        requires
            self.spec_range_algebra().span_keys().len() > 0,
        ensures
            r is Ok <==> all_start_in_grid(self.spec_range_algebra(), unit),
            r matches Err(e) ==> start_error(self.spec_range_algebra(), unit, e),
            r matches Ok(st) ==> stretches_fit(self.spec_range_algebra(), unit, st@),
    {
        self.range_algebra.check();
        let reference = self.reference_time();
        let keys = self.range_algebra.task_ids();
        let ghost m = self.range_algebra.span_map();
        let us: i64 = unit.seconds() as i64;
        let mut out: IdMap<Stretch> = IdMap::new();
        let mut i: usize = 0;
        while i < keys.len()
            invariant
                i <= keys@.len(),
                keys@ == self.range_algebra.span_keys(),
                strictly_increasing(keys@),
                m == self.range_algebra.span_map(),
                us == unit_seconds(unit),
                reference == earliest_start(m, keys@),
                MIN_TIMESTAMP <= reference <= MAX_TIMESTAMP,
                forall|t: TaskId| #[trigger] m.contains_key(t) ==> reference <= m[t].start.secs,
                forall|t: TaskId| #[trigger] keys@.contains(t) <==> m.contains_key(t),
                forall|t: TaskId| #[trigger] m.contains_key(t) ==> span_ok(m[t]),
                forall|t: TaskId| #[trigger] out@.contains_key(t) <==> keys@.subrange(0, i as int).contains(t),
                forall|t: TaskId| #[trigger] out@.contains_key(t) ==> out@[t].unit == unit && range_fits(out@[t].range, m[t], reference as int, unit),
                forall|k: int| 0 <= k < i ==> start_unit(m[#[trigger] keys@[k]], reference as int, unit) < 255,
            decreases keys@.len() - i,
        {
            let t = keys[i];
            assert(keys@.contains(t));
            let sp = *self.range_algebra.span(t).unwrap();
            proof {
                lemma_secs_monotone(sp.start, sp.end);
            }
            let su: u8 = ((sp.start.secs - reference) / us) as u8;
            let eu: u8 = ((sp.end.secs - reference + us - 1) / us) as u8;
            if su == 255 {
                proof {
                    assert(m.contains_key(t) && sp == m[t]);
                    assert(start_unit(m[t], reference as int, unit) == su);
                    assert(start_error(self.range_algebra, unit, GridAlgebraError::InvalidTimeRange { start: sp.start, end: sp.end }));
                    assert(!all_start_in_grid(self.range_algebra, unit));
                }
                return Err(GridAlgebraError::InvalidTimeRange { start: sp.start, end: sp.end });
            }
            let hi: u8 = if eu > su + 1 { eu } else { su + 1 };
            let range = StretchRange::new(su, hi);
            let ghost o0 = out@;
            let _ = out.insert(t, Stretch::new(range, unit));
            proof {
                let s0 = keys@.subrange(0, i as int);
                let s1 = keys@.subrange(0, i + 1);
                assert(s1 == s0.push(t));
                assert forall|x: TaskId| #[trigger] out@.contains_key(x) <==> s1.contains(x) by {
                    if s1.contains(x) && x != t {
                        let k = choose|k: int| 0 <= k < s1.len() && s1[k] == x;
                        assert(s0[k] == x);
                    }
                    if s0.contains(x) {
                        let k = choose|k: int| 0 <= k < s0.len() && s0[k] == x;
                        assert(s1[k] == x);
                    }
                    if x == t {
                        assert(s1[i as int] == x);
                    }
                }
            }
            i = i + 1;
        }
        proof {
            assert(keys@.subrange(0, keys@.len() as int) == keys@);
            assert forall|t: TaskId| #[trigger] m.contains_key(t) implies start_unit(m[t], reference as int, unit) < 255 by {
                assert(keys@.contains(t));
                let k = choose|k: int| 0 <= k < keys@.len() && keys@[k] == t;
                assert(start_unit(m[keys@[k]], reference as int, unit) < 255);
            }
        }
        Ok(out)
    }
}

} // verus!
