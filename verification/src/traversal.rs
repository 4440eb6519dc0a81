use vstd::prelude::*;

use crate::graph::{Graph, GraphError};
use crate::ids::TaskId;

verus! {

/// One step of a walk: along an edge, or against it when `rev` holds.
pub open spec fn step(g: Graph, rev: bool, u: TaskId, v: TaskId) -> bool {
    if rev {
        g.edge(v, u)
    } else {
        g.edge(u, v)
    }
}

/// A non-empty sequence of tasks, each one step from the one before.
pub open spec fn is_walk(g: Graph, rev: bool, p: Seq<TaskId>) -> bool {
    &&& p.len() >= 1
    &&& forall|i: int| 0 <= i < p.len() - 1 ==> #[trigger] step(g, rev, p[i], p[i + 1])
}

/// Whether some walk leads from `a` to `b`.
pub open spec fn reaches(g: Graph, rev: bool, a: TaskId, b: TaskId) -> bool {
    exists|p: Seq<TaskId>| #[trigger] is_walk(g, rev, p) && p[0] == a && p.last() == b
}

/// The tasks of a visit record.
pub open spec fn firsts(s: Seq<(TaskId, usize)>) -> Seq<TaskId> {
    s.map_values(|e: (TaskId, usize)| e.0)
}

/// A visit record of a traversal from `start`: it begins with `start` at
/// depth 0, visits no task twice, reaches every later task in one step from
/// an earlier one at one more depth, and visits exactly the tasks that can
/// be reached from `start`.
pub open spec fn valid_traversal(g: Graph, rev: bool, start: TaskId, out: Seq<(TaskId, usize)>) -> bool {
    &&& out.len() >= 1
    &&& out[0] == (start, 0usize)
    &&& firsts(out).no_duplicates()
    &&& forall|k: int| 0 < k < out.len() ==> #[trigger] has_parent(g, rev, out, k)
    &&& forall|t: TaskId| #[trigger] firsts(out).contains(t) <==> reaches(g, rev, start, t)
}

/// Entry `k` of a visit record is one step from an earlier entry, at one more depth.
pub open spec fn has_parent(g: Graph, rev: bool, out: Seq<(TaskId, usize)>, k: int) -> bool {
    exists|j: int| 0 <= j < k && #[trigger] step(g, rev, out[j].0, out[k].0) && out[k].1 == out[j].1 + 1
}

/// The depths of a visit record never decrease.
pub open spec fn depths_sorted(out: Seq<(TaskId, usize)>) -> bool {
    forall|i: int, j: int| 0 <= i <= j < out.len() ==> out[i].1 <= out[j].1
}

/// Every task reaches itself.
pub proof fn lemma_reaches_refl(g: Graph, rev: bool, a: TaskId)
    ensures
        reaches(g, rev, a, a),
{
    let p = seq![a];
    assert(is_walk(g, rev, p));
}

/// A walk extended by one step is a walk.
pub proof fn lemma_reaches_step(g: Graph, rev: bool, a: TaskId, b: TaskId, c: TaskId)
    requires
        reaches(g, rev, a, b),
        step(g, rev, b, c),
    ensures
        reaches(g, rev, a, c),
{
    let p = choose|p: Seq<TaskId>| #[trigger] is_walk(g, rev, p) && p[0] == a && p.last() == b;
    let q = p.push(c);
    assert forall|i: int| 0 <= i < q.len() - 1 implies #[trigger] step(g, rev, q[i], q[i + 1]) by {
        if i < p.len() - 1 {
            assert(q[i] == p[i] && q[i + 1] == p[i + 1]);
        }
    }
    assert(is_walk(g, rev, q));
}

/// A set of tasks that holds `a` and is closed under steps holds every task
/// that `a` reaches.
pub proof fn lemma_closed_holds_reachable(g: Graph, rev: bool, s: Seq<TaskId>, a: TaskId, b: TaskId)
    requires
        s.contains(a),
        forall|u: TaskId, v: TaskId| s.contains(u) && #[trigger] step(g, rev, u, v) ==> s.contains(v),
        reaches(g, rev, a, b),
    ensures
        s.contains(b),
{
    let p = choose|p: Seq<TaskId>| #[trigger] is_walk(g, rev, p) && p[0] == a && p.last() == b;
    lemma_walk_prefix_held(g, rev, s, p, p.len() - 1);
}

/// Every task of a walk up to position `k` lies in a step-closed set that
/// holds the walk's first task.
proof fn lemma_walk_prefix_held(g: Graph, rev: bool, s: Seq<TaskId>, p: Seq<TaskId>, k: int)
    requires
        is_walk(g, rev, p),
        0 <= k < p.len(),
        s.contains(p[0]),
        forall|u: TaskId, v: TaskId| s.contains(u) && #[trigger] step(g, rev, u, v) ==> s.contains(v),
    ensures
        s.contains(p[k]),
    decreases k,
{
    if k > 0 {
        lemma_walk_prefix_held(g, rev, s, p, k - 1);
        assert(step(g, rev, p[k - 1], p[k - 1 + 1]));
    }
}

/// A sequence of distinct task identifiers has at most 256 entries.
pub proof fn lemma_distinct_bounded(s: Seq<TaskId>)
    requires
        s.no_duplicates(),
    ensures
        s.len() <= 256,
{
    let m = s.map_values(|t: TaskId| t.0 as int);
    assert(m.no_duplicates()) by {
        assert forall|i: int, j: int| 0 <= i < m.len() && 0 <= j < m.len() && i != j implies m[i] != m[j] by {
            assert(s[i] != s[j]);
            if s[i].0 == s[j].0 {
                assert(s[i] == s[j]);
            }
        }
    }
    m.unique_seq_to_set();
    vstd::set_lib::lemma_int_range(0, 256);
    assert(m.to_set().subset_of(vstd::set_lib::set_int_range(0, 256))) by {
        assert forall|x: int| m.to_set().contains(x) implies vstd::set_lib::set_int_range(0, 256).contains(x) by {
            let k = choose|k: int| 0 <= k < m.len() && m[k] == x;
        }
    }
    vstd::set_lib::lemma_len_subset(m.to_set(), vstd::set_lib::set_int_range(0, 256));
}

/// Whether `y` waits in the work list at or after position `head`.
pub open spec fn in_live(work: Seq<(TaskId, usize)>, head: int, y: TaskId) -> bool {
    exists|m: int| head <= m < work.len() && (#[trigger] work[m]).0 == y
}

/// A pending entry is one step from a visited task, at one more depth.
pub open spec fn live_parent(g: Graph, rev: bool, out: Seq<(TaskId, usize)>, e: (TaskId, usize)) -> bool {
    exists|j: int| 0 <= j < out.len() && #[trigger] step(g, rev, out[j].0, e.0) && e.1 == out[j].1 + 1
}

/// The order that a breadth-first walk keeps: visited depths never decrease,
/// and the pending depths are sorted and lie between the last visited depth
/// and one more.
pub open spec fn bfs_order(out: Seq<(TaskId, usize)>, work: Seq<(TaskId, usize)>, head: int) -> bool {
    &&& depths_sorted(out)
    &&& forall|i: int, j: int| head <= i <= j < work.len() ==> work[i].1 <= work[j].1
    &&& out.len() > 0 ==> forall|i: int| head <= i < work.len() ==> out.last().1 <= #[trigger] work[i].1 <= out.last().1 + 1
}

/// `y` is visited at depth at most `b`, or waits in the work list from
/// `head` on at depth at most `b`.
pub open spec fn near(out: Seq<(TaskId, usize)>, work: Seq<(TaskId, usize)>, head: int, y: TaskId, b: int) -> bool {
    (exists|j: int| 0 <= j < out.len() && (#[trigger] out[j]).0 == y && out[j].1 <= b)
    || (exists|m: int| head <= m < work.len() && (#[trigger] work[m]).0 == y && work[m].1 <= b)
}

/// Every task one step from a visited task is near, within one more depth.
pub open spec fn bfs_near(g: Graph, rev: bool, out: Seq<(TaskId, usize)>, work: Seq<(TaskId, usize)>, head: int) -> bool {
    forall|k: int, y: TaskId| 0 <= k < out.len() && #[trigger] step(g, rev, out[k].0, y)
        ==> near(out, work, head, y, out[k].1 + 1)
}

/// Every task one step from a task of the record is in the record, within
/// one more depth.
pub open spec fn bfs_closed(g: Graph, rev: bool, out: Seq<(TaskId, usize)>) -> bool {
    forall|k: int, y: TaskId| 0 <= k < out.len() && #[trigger] step(g, rev, out[k].0, y)
        ==> exists|j: int| 0 <= j < out.len() && (#[trigger] out[j]).0 == y && out[j].1 <= out[k].1 + 1
}

/// Visiting the next pending entry keeps every step near.
proof fn lemma_near_visit(
    g: Graph,
    rev: bool,
    o0: Seq<(TaskId, usize)>,
    w0: Seq<(TaskId, usize)>,
    h0: int,
    work: Seq<(TaskId, usize)>,
)
    requires
        bfs_near(g, rev, o0, w0, h0),
        bfs_order(o0, w0, h0),
        0 <= h0 < w0.len(),
        work.len() >= w0.len(),
        work.subrange(0, w0.len() as int) == w0,
        forall|i: int| w0.len() <= i < work.len() ==> (#[trigger] work[i]).1 == w0[h0].1 + 1,
        forall|y: TaskId| #[trigger] step(g, rev, w0[h0].0, y) ==> firsts(o0.push(w0[h0])).contains(y)
            || in_live(work, w0.len() as int, y),
    ensures
        bfs_near(g, rev, o0.push(w0[h0]), work, h0 + 1),
{
    let e = w0[h0];
    let o1 = o0.push(e);
    assert forall|j: int| 0 <= j < o1.len() implies (#[trigger] o1[j]).1 <= e.1 by {
        if j < o0.len() {
            assert(o1[j] == o0[j]);
            assert(o0[j].1 <= o0[o0.len() - 1].1);
        }
    }
    assert forall|m: int| 0 <= m < w0.len() implies #[trigger] work[m] == w0[m] by {
        assert(work.subrange(0, w0.len() as int)[m] == work[m]);
    }
    assert forall|k: int, y: TaskId| 0 <= k < o1.len() && #[trigger] step(g, rev, o1[k].0, y)
        implies near(o1, work, h0 + 1, y, o1[k].1 + 1) by {
        if k == o0.len() {
            assert(o1[k] == e);
            if firsts(o1).contains(y) {
                let j = choose|j: int| 0 <= j < firsts(o1).len() && firsts(o1)[j] == y;
                assert(o1[j].0 == y);
                assert(o1[j].1 <= e.1);
            } else {
                let m = choose|m: int| w0.len() <= m < work.len() && (#[trigger] work[m]).0 == y;
                assert(work[m].1 == e.1 + 1);
            }
        } else {
            assert(o1[k] == o0[k]);
            assert(near(o0, w0, h0, y, o0[k].1 + 1));
            if exists|j: int| 0 <= j < o0.len() && (#[trigger] o0[j]).0 == y && o0[j].1 <= o0[k].1 + 1 {
                let j = choose|j: int| 0 <= j < o0.len() && (#[trigger] o0[j]).0 == y && o0[j].1 <= o0[k].1 + 1;
                assert(o1[j] == o0[j]);
            } else {
                let m = choose|m: int| h0 <= m < w0.len() && (#[trigger] w0[m]).0 == y && w0[m].1 <= o0[k].1 + 1;
                if m == h0 {
                    assert(o1[o0.len() as int] == e);
                } else {
                    assert(work[m] == w0[m]);
                }
            }
        }
    }
}

/// Passing over a pending entry whose task is visited keeps every step near.
proof fn lemma_near_skip(g: Graph, rev: bool, o0: Seq<(TaskId, usize)>, w0: Seq<(TaskId, usize)>, h0: int)
    requires
        bfs_near(g, rev, o0, w0, h0),
        bfs_order(o0, w0, h0),
        0 <= h0 < w0.len(),
        firsts(o0).contains(w0[h0].0),
    ensures
        bfs_near(g, rev, o0, w0, h0 + 1),
{
    assert forall|k: int, y: TaskId| 0 <= k < o0.len() && #[trigger] step(g, rev, o0[k].0, y)
        implies near(o0, w0, h0 + 1, y, o0[k].1 + 1) by {
        assert(near(o0, w0, h0, y, o0[k].1 + 1));
        if !exists|j: int| 0 <= j < o0.len() && (#[trigger] o0[j]).0 == y && o0[j].1 <= o0[k].1 + 1 {
            let m = choose|m: int| h0 <= m < w0.len() && (#[trigger] w0[m]).0 == y && w0[m].1 <= o0[k].1 + 1;
            if m == h0 {
                let j = choose|j: int| 0 <= j < firsts(o0).len() && firsts(o0)[j] == y;
                assert(o0[j].0 == y);
                assert(o0[j].1 <= o0[o0.len() - 1].1);
                assert(false);
            }
        }
    }
}

/// A walk with `n` edges from `a` to `b`.
pub open spec fn walk_of_length(g: Graph, rev: bool, a: TaskId, b: TaskId, n: int) -> bool {
    exists|p: Seq<TaskId>| #[trigger] is_walk(g, rev, p) && p[0] == a && p.last() == b && p.len() == n + 1
}

/// `n` is the number of edges of a shortest walk from `a` to `b`.
pub open spec fn shortest_distance(g: Graph, rev: bool, a: TaskId, b: TaskId, n: int) -> bool {
    &&& walk_of_length(g, rev, a, b, n)
    &&& forall|p: Seq<TaskId>| #[trigger] is_walk(g, rev, p) && p[0] == a && p.last() == b ==> p.len() >= n + 1
}

/// Each entry of a visit record is reached by a walk with as many edges as its depth.
proof fn lemma_record_walk(g: Graph, rev: bool, start: TaskId, out: Seq<(TaskId, usize)>, k: int)
    requires
        valid_traversal(g, rev, start, out),
        0 <= k < out.len(),
    ensures
        walk_of_length(g, rev, start, out[k].0, out[k].1 as int),
    decreases k,
{
    if k == 0 {
        let p = seq![start];
        assert(is_walk(g, rev, p));
    } else {
        assert(has_parent(g, rev, out, k));
        let j = choose|j: int| 0 <= j < k && #[trigger] step(g, rev, out[j].0, out[k].0) && out[k].1 == out[j].1 + 1;
        lemma_record_walk(g, rev, start, out, j);
        let p = choose|p: Seq<TaskId>| #[trigger] is_walk(g, rev, p) && p[0] == start && p.last() == out[j].0
            && p.len() == out[j].1 + 1;
        let q = p.push(out[k].0);
        assert forall|i: int| 0 <= i < q.len() - 1 implies #[trigger] step(g, rev, q[i], q[i + 1]) by {
            if i < p.len() - 1 {
                assert(q[i] == p[i] && q[i + 1] == p[i + 1]);
            }
        }
        assert(is_walk(g, rev, q));
    }
}

/// Along a walk from the start of a closed record, the task at position `i`
/// is recorded at depth at most `i`.
proof fn lemma_closed_walk_depth(g: Graph, rev: bool, start: TaskId, out: Seq<(TaskId, usize)>, p: Seq<TaskId>, i: int)
    requires
        valid_traversal(g, rev, start, out),
        bfs_closed(g, rev, out),
        is_walk(g, rev, p),
        p[0] == start,
        0 <= i < p.len(),
    ensures
        exists|j: int| 0 <= j < out.len() && (#[trigger] out[j]).0 == p[i] && out[j].1 <= i,
    decreases i,
{
    if i == 0 {
        assert(out[0].0 == p[0]);
    } else {
        lemma_closed_walk_depth(g, rev, start, out, p, i - 1);
        let j = choose|j: int| 0 <= j < out.len() && (#[trigger] out[j]).0 == p[i - 1] && out[j].1 <= i - 1;
        assert(step(g, rev, p[i - 1], p[i - 1 + 1]));
        assert(step(g, rev, out[j].0, p[i]));
        let j2 = choose|j2: int| 0 <= j2 < out.len() && (#[trigger] out[j2]).0 == p[i] && out[j2].1 <= out[j].1 + 1;
        assert(out[j2].1 <= i);
    }
}

/// In a closed visit record, each task's depth is its shortest distance
/// from the start.
pub proof fn lemma_bfs_shortest(g: Graph, rev: bool, start: TaskId, out: Seq<(TaskId, usize)>)
    requires
        valid_traversal(g, rev, start, out),
        bfs_closed(g, rev, out),
    ensures
        forall|k: int| 0 <= k < out.len() ==> #[trigger] shortest_distance(g, rev, start, out[k].0, out[k].1 as int),
{
    assert forall|k: int| 0 <= k < out.len() implies #[trigger] shortest_distance(g, rev, start, out[k].0, out[k].1 as int) by {
        lemma_record_walk(g, rev, start, out, k);
        assert forall|p: Seq<TaskId>| #[trigger] is_walk(g, rev, p) && p[0] == start && p.last() == out[k].0
            implies p.len() >= out[k].1 + 1 by {
            lemma_closed_walk_depth(g, rev, start, out, p, p.len() - 1);
            let j = choose|j: int| 0 <= j < out.len() && (#[trigger] out[j]).0 == p[p.len() - 1] && out[j].1 <= p.len() - 1;
            if j != k {
                assert(firsts(out)[j] == firsts(out)[k]);
            }
        }
    }
}

/// Before entry `k`, entry `i` of the record had a step to a task not yet
/// visited.
pub open spec fn open_before(g: Graph, rev: bool, out: Seq<(TaskId, usize)>, k: int, i: int) -> bool {
    exists|y: TaskId| #[trigger] step(g, rev, out[i].0, y) && !firsts(out.subrange(0, k)).contains(y)
}

/// Entry `j` is where a depth-first walk goes on from to reach entry `k`:
/// the last entry before `k` that still had a step to a task not yet
/// visited, one step from it and one level deeper.
pub open spec fn dfs_parent(g: Graph, rev: bool, out: Seq<(TaskId, usize)>, k: int, j: int) -> bool {
    &&& 0 <= j < k
    &&& step(g, rev, out[j].0, out[k].0)
    &&& out[k].1 == out[j].1 + 1
    &&& open_before(g, rev, out, k, j)
    &&& forall|i: int| j < i < k ==> !#[trigger] open_before(g, rev, out, k, i)
}

/// The record follows depth-first order: every entry after the first goes
/// on from the last entry that was still open.
pub open spec fn dfs_order(g: Graph, rev: bool, out: Seq<(TaskId, usize)>) -> bool {
    forall|k: int| 0 < k < out.len() ==> #[trigger] goes_on_from_open(g, rev, out, k)
}

/// Entry `k` goes on from some entry as a depth-first walk does.
pub open spec fn goes_on_from_open(g: Graph, rev: bool, out: Seq<(TaskId, usize)>, k: int) -> bool {
    exists|j: int| #[trigger] dfs_parent(g, rev, out, k, j)
}

/// The stack of a depth-first walk: each pending entry was pushed by a
/// visited entry, one step and one level from it; the pushers never
/// decrease from the bottom up; and each step from a visited entry to a
/// task not yet visited waits in the stack, pushed by that entry.
pub open spec fn dfs_stack(g: Graph, rev: bool, out: Seq<(TaskId, usize)>, work: Seq<(TaskId, usize)>, pushers: Seq<int>) -> bool {
    &&& pushers.len() == work.len()
    &&& out.len() > 0 ==> forall|m: int| 0 <= m < work.len() ==> 0 <= #[trigger] pushers[m] < out.len()
        && step(g, rev, out[pushers[m]].0, work[m].0) && work[m].1 == out[pushers[m]].1 + 1
    &&& forall|a: int, b: int| 0 <= a <= b < work.len() ==> pushers[a] <= pushers[b]
    &&& forall|i: int, y: TaskId| 0 <= i < out.len() && #[trigger] step(g, rev, out[i].0, y) && !firsts(out).contains(y)
        ==> exists|m: int| 0 <= m < work.len() && pushers[m] == i && (#[trigger] work[m]).0 == y
}

/// Visiting the entry on top of the stack keeps the stack in order, and
/// the new entry goes on from the last open entry.
proof fn lemma_dfs_visit(
    g: Graph,
    rev: bool,
    o0: Seq<(TaskId, usize)>,
    w0: Seq<(TaskId, usize)>,
    p0: Seq<int>,
    work: Seq<(TaskId, usize)>,
)
    requires
        dfs_stack(g, rev, o0, w0, p0),
        dfs_order(g, rev, o0),
        w0.len() > 0,
        !firsts(o0).contains(w0.last().0),
        o0.len() == 0 ==> w0.len() == 1,
        work.len() >= w0.len() - 1,
        work.subrange(0, w0.len() - 1) == w0.drop_last(),
        forall|i: int| w0.len() - 1 <= i < work.len() ==> (#[trigger] work[i]).1 == w0.last().1 + 1
            && step(g, rev, w0.last().0, work[i].0),
        forall|y: TaskId| #[trigger] step(g, rev, w0.last().0, y) ==> firsts(o0.push(w0.last())).contains(y)
            || in_live(work, w0.len() - 1, y),
    ensures
        dfs_stack(g, rev, o0.push(w0.last()), work,
            p0.drop_last() + Seq::new((work.len() - (w0.len() - 1)) as nat, |i: int| o0.len() as int)),
        dfs_order(g, rev, o0.push(w0.last())),
{
    let e = w0.last();
    let t = e.0;
    let k = o0.len() as int;
    let top = w0.len() - 1;
    let o1 = o0.push(e);
    let p1 = p0.drop_last() + Seq::new((work.len() - top) as nat, |i: int| k);
    assert forall|m: int| 0 <= m < top implies #[trigger] work[m] == w0[m] by {
        assert(work.subrange(0, top)[m] == work[m]);
    }
    assert(firsts(o1) =~= firsts(o0).push(t));
    assert forall|j: int| 0 <= j < k implies #[trigger] o1[j] == o0[j] by {}
    // the stack invariant
    assert forall|m: int| 0 <= m < work.len() implies 0 <= #[trigger] p1[m] < o1.len()
        && step(g, rev, o1[p1[m]].0, work[m].0) && work[m].1 == o1[p1[m]].1 + 1 by {
        if m < top {
            assert(p1[m] == p0[m]);
            assert(o0.len() > 0);
        } else {
            assert(p1[m] == k);
            assert(o1[k] == e);
        }
    }
    assert forall|a: int, b: int| 0 <= a <= b < work.len() implies p1[a] <= p1[b] by {
        if b < top {
            assert(p1[a] == p0[a] && p1[b] == p0[b]);
        } else if a < top {
            assert(p1[a] == p0[a]);
            assert(o0.len() > 0);
            assert(0 <= p0[a] < o0.len());
        }
    }
    assert forall|i: int, y: TaskId| 0 <= i < o1.len() && #[trigger] step(g, rev, o1[i].0, y) && !firsts(o1).contains(y)
        implies exists|m: int| 0 <= m < work.len() && p1[m] == i && (#[trigger] work[m]).0 == y by {
        assert(y != t) by { assert(firsts(o1)[k] == t); }
        if i == k {
            assert(o1[k] == e);
            let m = choose|m: int| top <= m < work.len() && (#[trigger] work[m]).0 == y;
            assert(p1[m] == k);
        } else {
            assert(o1[i] == o0[i]);
            assert(!firsts(o0).contains(y)) by {
                if firsts(o0).contains(y) {
                    let q = choose|q: int| 0 <= q < firsts(o0).len() && firsts(o0)[q] == y;
                    assert(firsts(o1)[q] == y);
                }
            }
            let m = choose|m: int| 0 <= m < w0.len() && p0[m] == i && (#[trigger] w0[m]).0 == y;
            assert(m != top);
            assert(work[m] == w0[m]);
            assert(p1[m] == p0[m]);
        }
    }
    // the order of the record
    assert forall|kk: int| 0 < kk < o1.len() implies #[trigger] goes_on_from_open(g, rev, o1, kk) by {
        if kk < k {
            assert(goes_on_from_open(g, rev, o0, kk));
            let j = choose|j: int| #[trigger] dfs_parent(g, rev, o0, kk, j);
            assert(o1.subrange(0, kk) =~= o0.subrange(0, kk));
            assert forall|i: int| 0 <= i < kk implies open_before(g, rev, o1, kk, i) == open_before(g, rev, o0, kk, i) by {
                assert(o1[i] == o0[i]);
            }
            assert(dfs_parent(g, rev, o1, kk, j));
        } else {
            assert(kk == k);
            assert(o0.len() > 0);
            let pj = p0[top];
            assert(o1.subrange(0, k) =~= o0);
            assert(step(g, rev, o0[pj].0, t));
            assert(o1[pj] == o0[pj]);
            assert(open_before(g, rev, o1, k, pj)) by {
                assert(step(g, rev, o1[pj].0, t));
            }
            assert forall|i: int| pj < i < k implies !#[trigger] open_before(g, rev, o1, k, i) by {
                if open_before(g, rev, o1, k, i) {
                    let y = choose|y: TaskId| #[trigger] step(g, rev, o1[i].0, y) && !firsts(o1.subrange(0, k)).contains(y);
                    assert(o1[i] == o0[i]);
                    let m = choose|m: int| 0 <= m < w0.len() && p0[m] == i && (#[trigger] w0[m]).0 == y;
                    assert(p0[m] <= p0[top]);
                }
            }
            assert(dfs_parent(g, rev, o1, k, pj));
        }
    }
}

/// Dropping a visited entry from the top of the stack keeps it in order.
proof fn lemma_dfs_skip(g: Graph, rev: bool, o0: Seq<(TaskId, usize)>, w0: Seq<(TaskId, usize)>, p0: Seq<int>)
    requires
        dfs_stack(g, rev, o0, w0, p0),
        w0.len() > 0,
        firsts(o0).contains(w0.last().0),
    ensures
        dfs_stack(g, rev, o0, w0.drop_last(), p0.drop_last()),
{
    let top = w0.len() - 1;
    assert forall|i: int, y: TaskId| 0 <= i < o0.len() && #[trigger] step(g, rev, o0[i].0, y) && !firsts(o0).contains(y)
        implies exists|m: int| 0 <= m < w0.drop_last().len() && p0.drop_last()[m] == i && (#[trigger] w0.drop_last()[m]).0 == y by {
        let m = choose|m: int| 0 <= m < w0.len() && p0[m] == i && (#[trigger] w0[m]).0 == y;
        assert(m != top);
        assert(w0.drop_last()[m] == w0[m]);
    }
}

/// The `q`-th position of a walk over `n` entries, forwards or backwards.
pub open spec fn order_index(backwards: bool, n: int, q: int) -> int {
    if backwards { n - 1 - q } else { q }
}

/// Appends `(y, depth)` to `work` for each `y` of `nb` that is not yet
/// visited, walking `nb` backwards when `backwards` holds.
fn push_unvisited(work: &mut Vec<(TaskId, usize)>, nb: &Vec<TaskId>, visited: &Vec<bool>, depth: usize, backwards: bool)
    requires
        visited@.len() == 256,
    ensures
        final(work)@.len() >= old(work)@.len(),
        final(work)@.subrange(0, old(work)@.len() as int) == old(work)@,
        forall|i: int| old(work)@.len() <= i < final(work)@.len() ==> (#[trigger] final(work)@[i]).1 == depth
            && nb@.contains(final(work)@[i].0),
        forall|y: TaskId| #[trigger] nb@.contains(y) ==> visited@[y.0 as int] || in_live(final(work)@, old(work)@.len() as int, y),
{
    let ghost w0 = work@;
    let n = nb.len();
    let mut i: usize = 0;
    while i < n
        invariant
            i <= n,
            n == nb@.len(),
            visited@.len() == 256,
            work@.len() >= w0.len(),
            work@.subrange(0, w0.len() as int) == w0,
            forall|m: int| w0.len() <= m < work@.len() ==> (#[trigger] work@[m]).1 == depth && nb@.contains(work@[m].0),
            forall|q: int| 0 <= q < i ==> visited@[nb@[order_index(backwards, n as int, q)].0 as int]
                || in_live(work@, w0.len() as int, #[trigger] nb@[order_index(backwards, n as int, q)]),
        decreases n - i,
    {
        let idx: usize = if backwards { n - 1 - i } else { i };
        let y = nb[idx];
        let ghost before = work@;
        if !visited[y.0 as usize] {
            work.push((y, depth));
            proof {
                assert(work@[before.len() as int] == (y, depth));
                assert(in_live(work@, w0.len() as int, y));
            }
        }
        proof {
            assert(work@.subrange(0, w0.len() as int) == before.subrange(0, w0.len() as int));
            assert forall|q: int| 0 <= q < i + 1 implies visited@[nb@[order_index(backwards, n as int, q)].0 as int]
                || in_live(work@, w0.len() as int, #[trigger] nb@[order_index(backwards, n as int, q)]) by {
                let z = nb@[order_index(backwards, n as int, q)];
                if q < i && !visited@[z.0 as int] {
                    assert(in_live(before, w0.len() as int, z));
                    let m = choose|m: int| w0.len() <= m < before.len() && (#[trigger] before[m]).0 == z;
                    assert(work@[m] == before[m]);
                }
            }
            assert forall|m: int| w0.len() <= m < work@.len() implies (#[trigger] work@[m]).1 == depth && nb@.contains(work@[m].0) by {
                if m == before.len() {
                    assert(nb@[idx as int] == y);
                } else {
                    assert(work@[m] == before[m]);
                }
            }
        }
        i = i + 1;
    }
    proof {
        assert forall|y: TaskId| #[trigger] nb@.contains(y) implies visited@[y.0 as int] || in_live(work@, w0.len() as int, y) by {
            let k = choose|k: int| 0 <= k < n && nb@[k] == y;
            let q = if backwards { n - 1 - k } else { k };
            assert(order_index(backwards, n as int, q) == k);
            assert(nb@[order_index(backwards, n as int, q)] == y);
        }
    }
}

impl Graph {
    /// The tasks one step away from `t`: its dependents, or with `rev` its dependencies.
    pub fn neighbours(&self, t: TaskId, rev: bool) -> (r: Vec<TaskId>)
        requires
            self.wf(),
        ensures
            forall|y: TaskId| #[trigger] r@.contains(y) <==> step(*self, rev, t, y),
    {
        if rev {
            self.get_dependencies(t)
        } else {
            self.get_dependents(t)
        }
    }
}

/// Why a visit with a visitor stopped: the start is not a task of the
/// graph, or the visitor failed with its own error.
#[derive(Debug)]
pub enum VisitError<E> {
    Graph(GraphError),
    Visitor(E),
}

/// `visit` was called on the entries of `record` in order: on every one
/// with success when `r` is a success, and otherwise on a prefix with
/// success and then on one more entry, which failed with the error of `r`.
pub open spec fn visited_in_order<E, F: Fn(TaskId, usize) -> Result<(), E>>(
    visit: F,
    record: Seq<(TaskId, usize)>,
    r: Result<(), VisitError<E>>,
) -> bool {
    if r is Ok {
        forall|i: int| 0 <= i < record.len() ==> #[trigger] visit.ensures((record[i].0, record[i].1), Ok(()))
    } else if r->Err_0 is Visitor {
        exists|k: int| 0 <= k < record.len()
            && (forall|i: int| 0 <= i < k ==> #[trigger] visit.ensures((record[i].0, record[i].1), Ok(())))
            && #[trigger] visit.ensures((record[k].0, record[k].1), Err(r->Err_0->Visitor_0))
    } else {
        false
    }
}

/// A failure at entry `k` after successes before it is a visit in order
/// that failed.
proof fn lemma_visit_failed<E, F: Fn(TaskId, usize) -> Result<(), E>>(visit: F, record: Seq<(TaskId, usize)>, k: int, e: E)
    requires
        0 <= k < record.len(),
        forall|q: int| 0 <= q < k ==> #[trigger] visit.ensures((record[q].0, record[q].1), Ok(())),
        visit.ensures((record[k].0, record[k].1), Err(e)),
    ensures
        visited_in_order(visit, record, Err(VisitError::Visitor(e))),
{
    let r = Err::<(), VisitError<E>>(VisitError::Visitor(e));
    assert(r->Err_0 is Visitor);
    assert(r->Err_0->Visitor_0 == e);
    assert(!(r is Ok));
    assert(exists|kk: int| 0 <= kk < record.len()
        && (forall|i: int| 0 <= i < kk ==> #[trigger] visit.ensures((record[i].0, record[i].1), Ok(())))
        && #[trigger] visit.ensures((record[kk].0, record[kk].1), Err(e)));
}

/// Calls `visit` on the entries of `record` in order and stops at the
/// first failure, which it returns.
fn visit_record<E, F: Fn(TaskId, usize) -> Result<(), E>>(record: &Vec<(TaskId, usize)>, visit: F) -> (r: Result<(), VisitError<E>>)
    requires
        forall|t: TaskId, d: usize| #[trigger] visit.requires((t, d)),
    ensures
        visited_in_order(visit, record@, r),
{
    let mut i: usize = 0;
    while i < record.len()
        invariant
            i <= record@.len(),
            forall|t: TaskId, d: usize| #[trigger] visit.requires((t, d)),
            forall|q: int| 0 <= q < i ==> #[trigger] visit.ensures((record@[q].0, record@[q].1), Ok(())),
        decreases record@.len() - i,
    {
        let (t, d) = record[i];
        let res = visit(t, d);
        proof {
            assert(record@[i as int] == (t, d));
            assert(visit.ensures((t, d), res));
        }
        match res {
            Ok(u) => {
                proof {
                    assert(u == ());
                    assert(res === Ok::<(), E>(()));
                    assert(visit.ensures((record@[i as int].0, record@[i as int].1), Ok::<(), E>(())));
                }
            },
            Err(e) => {
                proof {
                    lemma_visit_failed(visit, record@, i as int, e);
                }
                return Err(VisitError::Visitor(e));
            },
        }
        i = i + 1;
    }
    Ok(())
}


impl Graph {
    /// The visit record of a walk from `start`: depth first, or breadth first
    /// when `breadth` holds; along the edges, or against them with `rev`.
    pub(crate) fn walk(&self, start: TaskId, rev: bool, breadth: bool) -> (out: Vec<(TaskId, usize)>)
        requires
            self.wf(),
            self.has_task(start),
        ensures
            valid_traversal(*self, rev, start, out@),
            breadth ==> depths_sorted(out@),
            breadth ==> bfs_closed(*self, rev, out@),
            !breadth ==> dfs_order(*self, rev, out@),
    {
        let mut visited: Vec<bool> = Vec::new();
        let mut c: usize = 0;
        while c < 256
            invariant
                c <= 256,
                visited@.len() == c,
                forall|x: int| 0 <= x < c ==> !visited@[x],
            decreases 256 - c,
        {
            visited.push(false);
            c = c + 1;
        }
        let mut out: Vec<(TaskId, usize)> = Vec::new();
        let mut work: Vec<(TaskId, usize)> = Vec::new();
        work.push((start, 0));
        let ghost mut pushers: Seq<int> = seq![0int];
        let mut head: usize = 0;
        while head < work.len()
            invariant
                self.wf(),
                head <= work@.len(),
                visited@.len() == 256,
                forall|x: TaskId| #[trigger] visited@[x.0 as int] <==> firsts(out@).contains(x),
                firsts(out@).no_duplicates(),
                out@.len() <= 256,
                !breadth ==> head == 0,
                out@.len() == 0 ==> head == 0 && work@ == seq![(start, 0usize)],
                out@.len() > 0 ==> out@[0] == (start, 0usize),
                forall|k: int| 0 < k < out@.len() ==> #[trigger] has_parent(*self, rev, out@, k),
                forall|k: int| 0 <= k < out@.len() ==> (#[trigger] out@[k]).1 <= k,
                forall|k: int| 0 <= k < out@.len() ==> reaches(*self, rev, start, (#[trigger] out@[k]).0),
                forall|i: int| head <= i < work@.len() && out@.len() > 0 ==> #[trigger] live_parent(*self, rev, out@, work@[i]),
                forall|k: int, y: TaskId| 0 <= k < out@.len() && #[trigger] step(*self, rev, out@[k].0, y)
                    ==> visited@[y.0 as int] || in_live(work@, head as int, y),
                breadth ==> bfs_order(out@, work@, head as int),
                breadth ==> bfs_near(*self, rev, out@, work@, head as int),
                !breadth ==> dfs_stack(*self, rev, out@, work@, pushers) && dfs_order(*self, rev, out@),
            decreases 256 - out@.len(), work@.len() - head,
        {
            let ghost w0 = work@;
            let ghost h0 = head as int;
            let ghost o0 = out@;
            let ghost v0 = visited@;
            let ghost popped: int = if breadth { head as int } else { work@.len() - 1 };
            let e = if breadth {
                let e = work[head];
                head = head + 1;
                e
            } else {
                work.pop().unwrap()
            };
            proof {
                assert(e == w0[popped]);
                assert(work@.len() == if breadth { w0.len() as int } else { w0.len() - 1 });
                assert(forall|m: int| 0 <= m < work@.len() ==> work@[m] == w0[m]);
            }
            let t = e.0;
            let d = e.1;
            if !visited[t.0 as usize] {
                proof {
                    if o0.len() > 0 {
                        assert(live_parent(*self, rev, o0, w0[popped]));
                        let j = choose|j: int| 0 <= j < o0.len() && #[trigger] step(*self, rev, o0[j].0, e.0) && e.1 == o0[j].1 + 1;
                        assert(o0[j].1 <= j);
                    }
                    assert(firsts(o0.push(e)) == firsts(o0).push(t));
                    assert(firsts(o0.push(e)).no_duplicates()) by {
                        assert(!firsts(o0).contains(t));
                    }
                    lemma_distinct_bounded(firsts(o0.push(e)));
                }
                visited.set(t.0 as usize, true);
                out.push((t, d));
                let nb = self.neighbours(t, rev);
                let ghost w1 = work@;
                push_unvisited(&mut work, &nb, &visited, d + 1, !breadth);
                proof {
                    let o1 = out@;
                    assert(o1 == o0.push(e));
                    assert(firsts(o1) == firsts(o0).push(t));
                    // the new task is reachable
                    if o0.len() == 0 {
                        assert(t == start);
                        lemma_reaches_refl(*self, rev, start);
                    } else {
                        assert(live_parent(*self, rev, o0, w0[popped]));
                        let j = choose|j: int| 0 <= j < o0.len() && #[trigger] step(*self, rev, o0[j].0, e.0) && e.1 == o0[j].1 + 1;
                        assert(reaches(*self, rev, start, o0[j].0));
                        lemma_reaches_step(*self, rev, start, o0[j].0, t);
                        assert(o1[j] == o0[j]);
                        assert(o1[o0.len() as int] == e);
                        assert(has_parent(*self, rev, o1, o0.len() as int));
                    }
                    assert forall|x: TaskId| #[trigger] visited@[x.0 as int] <==> firsts(o1).contains(x) by {
                        if x == t {
                            assert(firsts(o1)[o0.len() as int] == t);
                        } else {
                            assert(visited@[x.0 as int] == v0[x.0 as int]);
                            if firsts(o1).contains(x) {
                                let m = choose|m: int| 0 <= m < firsts(o1).len() && firsts(o1)[m] == x;
                                assert(firsts(o0)[m] == x);
                            }
                            if firsts(o0).contains(x) {
                                let m = choose|m: int| 0 <= m < firsts(o0).len() && firsts(o0)[m] == x;
                                assert(firsts(o1)[m] == x);
                            }
                        }
                    }
                    assert forall|k: int| 0 < k < o1.len() implies #[trigger] has_parent(*self, rev, o1, k) by {
                        if k < o0.len() {
                            assert(has_parent(*self, rev, o0, k));
                            let j = choose|j: int| 0 <= j < k && #[trigger] step(*self, rev, o0[j].0, o0[k].0) && o0[k].1 == o0[j].1 + 1;
                            assert(o1[j] == o0[j] && o1[k] == o0[k]);
                        }
                    }
                    assert forall|k: int| 0 <= k < o1.len() implies (#[trigger] o1[k]).1 <= k by {
                        if k < o0.len() {
                            assert(o1[k] == o0[k]);
                        }
                    }
                    assert forall|k: int| 0 <= k < o1.len() implies reaches(*self, rev, start, (#[trigger] o1[k]).0) by {
                        if k < o0.len() {
                            assert(o1[k] == o0[k]);
                        }
                    }
                    let lo: int = if breadth { h0 + 1 } else { h0 };
                    assert(head as int == lo);
                    assert forall|i: int| head <= i < work@.len() && o1.len() > 0 implies #[trigger] live_parent(*self, rev, o1, work@[i]) by {
                        if i < w1.len() {
                            assert(work@[i] == w1[i]);
                            assert(w1[i] == w0[i]);
                            assert(o0.len() > 0);
                            assert(live_parent(*self, rev, o0, w0[i]));
                            let j = choose|j: int| 0 <= j < o0.len() && #[trigger] step(*self, rev, o0[j].0, w0[i].0) && w0[i].1 == o0[j].1 + 1;
                            assert(o1[j] == o0[j]);
                        } else {
                            assert(nb@.contains(work@[i].0));
                            assert(step(*self, rev, t, work@[i].0));
                            assert(o1[o0.len() as int] == e);
                        }
                    }
                    assert forall|k: int, y: TaskId| 0 <= k < o1.len() && #[trigger] step(*self, rev, o1[k].0, y)
                        implies visited@[y.0 as int] || in_live(work@, head as int, y) by {
                        if k == o0.len() {
                            assert(nb@.contains(y));
                            if !visited@[y.0 as int] {
                                let m = choose|m: int| w1.len() <= m < work@.len() && (#[trigger] work@[m]).0 == y;
                            }
                        } else {
                            assert(o1[k] == o0[k]);
                            if y != t && !v0[y.0 as int] {
                                assert(in_live(w0, h0, y));
                                let m = choose|m: int| h0 <= m < w0.len() && (#[trigger] w0[m]).0 == y;
                                assert(m != popped);
                                assert(work@[m] == w0[m]);
                            }
                        }
                    }
                    if breadth {
                        assert(bfs_order(o0, w0, h0));
                        assert forall|i: int, j: int| 0 <= i <= j < o1.len() implies o1[i].1 <= o1[j].1 by {
                            if j == o0.len() && o0.len() > 0 {
                                assert(o0.last().1 <= w0[h0].1);
                                if i < o0.len() {
                                    assert(o1[i] == o0[i]);
                                    assert(o0[i].1 <= o0[o0.len() - 1].1);
                                }
                            } else if j < o0.len() {
                                assert(o1[i] == o0[i] && o1[j] == o0[j]);
                            }
                        }
                        assert forall|i: int, j: int| head <= i <= j < work@.len() implies work@[i].1 <= work@[j].1 by {
                            if j < w1.len() {
                                assert(work@[i] == w0[i] && work@[j] == w0[j]);
                            } else if i < w1.len() {
                                assert(work@[i] == w0[i]);
                                assert(w0[h0].1 <= w0[i].1);
                                if o0.len() > 0 {
                                    assert(w0[i].1 <= o0.last().1 + 1);
                                    assert(o0.last().1 <= w0[h0].1);
                                } else {
                                    assert(w0.len() == 1);
                                }
                            }
                        }
                        assert forall|i: int| head <= i < work@.len() implies o1.last().1 <= #[trigger] work@[i].1 <= o1.last().1 + 1 by {
                            assert(o1.last() == e);
                            if i < w1.len() {
                                assert(work@[i] == w0[i]);
                                assert(w0[h0].1 <= w0[i].1);
                                if o0.len() > 0 {
                                    assert(w0[i].1 <= o0.last().1 + 1);
                                    assert(o0.last().1 <= w0[h0].1);
                                } else {
                                    assert(w0.len() == 1);
                                }
                            }
                        }
                    }
                }
                proof {
                    if breadth {
                        assert(w1 == w0);
                        assert(out@ == o0.push(w0[h0]));
                        assert forall|y: TaskId| #[trigger] step(*self, rev, w0[h0].0, y) implies firsts(o0.push(w0[h0])).contains(y)
                            || in_live(work@, w0.len() as int, y) by {
                            assert(nb@.contains(y));
                        }
                        lemma_near_visit(*self, rev, o0, w0, h0, work@);
                    } else {
                        assert(w1 =~= w0.drop_last());
                        assert(e == w0.last());
                        assert(out@ == o0.push(w0.last()));
                        assert forall|i: int| w0.len() - 1 <= i < work@.len() implies (#[trigger] work@[i]).1 == w0.last().1 + 1
                            && step(*self, rev, w0.last().0, work@[i].0) by {
                            assert(nb@.contains(work@[i].0));
                        }
                        assert forall|y: TaskId| #[trigger] step(*self, rev, w0.last().0, y) implies firsts(o0.push(w0.last())).contains(y)
                            || in_live(work@, w0.len() - 1, y) by {
                            assert(nb@.contains(y));
                        }
                        lemma_dfs_visit(*self, rev, o0, w0, pushers, work@);
                        pushers = pushers.drop_last() + Seq::new((work@.len() - (w0.len() - 1)) as nat, |i: int| o0.len() as int);
                    }
                }
            } else {
                proof {
                    if breadth {
                        assert(v0[t.0 as int]);
                        lemma_near_skip(*self, rev, o0, w0, h0);
                    } else {
                        assert(v0[t.0 as int]);
                        assert(e == w0.last());
                        lemma_dfs_skip(*self, rev, o0, w0, pushers);
                        assert(work@ =~= w0.drop_last());
                        pushers = pushers.drop_last();
                    }
                    assert forall|i: int| head <= i < work@.len() && out@.len() > 0 implies #[trigger] live_parent(*self, rev, out@, work@[i]) by {
                        assert(work@[i] == w0[i]);
                    }
                    assert forall|k: int, y: TaskId| 0 <= k < out@.len() && #[trigger] step(*self, rev, out@[k].0, y)
                        implies visited@[y.0 as int] || in_live(work@, head as int, y) by {
                        if !visited@[y.0 as int] {
                            assert(in_live(w0, h0, y));
                            let m = choose|m: int| h0 <= m < w0.len() && (#[trigger] w0[m]).0 == y;
                            assert(m != popped);
                            assert(work@[m] == w0[m]);
                        }
                    }
                    if breadth {
                        assert forall|i: int, j: int| head <= i <= j < work@.len() implies work@[i].1 <= work@[j].1 by {
                            assert(work@[i] == w0[i] && work@[j] == w0[j]);
                        }
                        assert forall|i: int| head <= i < work@.len() implies out@.last().1 <= #[trigger] work@[i].1 <= out@.last().1 + 1 by {
                            assert(work@[i] == w0[i]);
                        }
                    }
                }
            }
        }
        proof {
            assert(out@.len() > 0);
            assert forall|t: TaskId| #[trigger] firsts(out@).contains(t) <==> reaches(*self, rev, start, t) by {
                if firsts(out@).contains(t) {
                    let m = choose|m: int| 0 <= m < firsts(out@).len() && firsts(out@)[m] == t;
                    assert(reaches(*self, rev, start, out@[m].0));
                }
                if reaches(*self, rev, start, t) {
                    assert forall|u: TaskId, v: TaskId| firsts(out@).contains(u) && #[trigger] step(*self, rev, u, v)
                        implies firsts(out@).contains(v) by {
                        let m = choose|m: int| 0 <= m < firsts(out@).len() && firsts(out@)[m] == u;
                        assert(step(*self, rev, out@[m].0, v));
                        assert(visited@[v.0 as int]);
                    }
                    assert(firsts(out@)[0] == start);
                    lemma_closed_holds_reachable(*self, rev, firsts(out@), start, t);
                }
            }
            if breadth {
                assert forall|k: int, y: TaskId| 0 <= k < out@.len() && #[trigger] step(*self, rev, out@[k].0, y)
                    implies exists|j: int| 0 <= j < out@.len() && (#[trigger] out@[j]).0 == y && out@[j].1 <= out@[k].1 + 1 by {
                    assert(near(out@, work@, head as int, y, out@[k].1 + 1));
                }
            }
        }
        out
    }
}

/// No walk along the edges from `from` to `x` has fewer than `n` edges.
pub open spec fn no_shorter(g: Graph, from: TaskId, x: TaskId, n: int) -> bool {
    forall|w: Seq<TaskId>| #[trigger] is_walk(g, false, w) && w[0] == from && w.last() == x ==> w.len() >= n + 1
}

/// A walk that starts inside `p` and ends outside it leaves `p` along an
/// edge somewhere.
proof fn lemma_first_exit(g: Graph, w: Seq<TaskId>, p: Seq<TaskId>) -> (j: int)
    requires
        is_walk(g, false, w),
        p.contains(w[0]),
        !p.contains(w.last()),
    ensures
        1 <= j < w.len(),
        p.contains(w[j - 1]),
        !p.contains(w[j]),
        step(g, false, w[j - 1], w[j]),
    decreases w.len(),
{
    let n = w.len() as int;
    assert(n >= 2) by {
        if n == 1 {
            assert(w.last() == w[0]);
        }
    }
    assert(step(g, false, w[n - 2], w[n - 2 + 1]));
    if p.contains(w[n - 2]) {
        n - 1
    } else {
        let v = w.drop_last();
        assert forall|i: int| 0 <= i < v.len() - 1 implies #[trigger] step(g, false, v[i], v[i + 1]) by {
            assert(step(g, false, w[i], w[i + 1]));
        }
        assert(v.last() == w[n - 2]);
        let j = lemma_first_exit(g, v, p);
        assert(step(g, false, w[j - 1], w[j - 1 + 1]));
        j
    }
}

/// Breadth-first bound: while the queue `q` is processed in order up to
/// `q[hp]`, every walk from `from` to a task not yet reached has at least
/// two more tasks than the depth of `q[hp]`.
proof fn lemma_bfs_bound(
    g: Graph,
    from: TaskId,
    q: Seq<TaskId>,
    hp: int,
    visited: Seq<bool>,
    depth: Seq<usize>,
    target: TaskId,
    w: Seq<TaskId>,
)
    requires
        0 <= hp < q.len(),
        q[0] == from,
        visited.len() == 256,
        depth.len() == 256,
        forall|x: TaskId| #[trigger] visited[x.0 as int] <==> q.contains(x),
        forall|i: int, y: TaskId| 0 <= i < hp && #[trigger] g.edge(q[i], y) ==> visited[y.0 as int],
        forall|i: int, j: int| 0 <= i <= j < q.len() ==> depth[(#[trigger] q[i]).0 as int] <= depth[(#[trigger] q[j]).0 as int],
        forall|x: TaskId| visited[x.0 as int] ==> #[trigger] no_shorter(g, from, x, depth[x.0 as int] as int),
        depth[from.0 as int] == 0,
        !visited[target.0 as int],
        is_walk(g, false, w),
        w[0] == from,
        w.last() == target,
    ensures
        w.len() >= depth[q[hp].0 as int] + 2,
{
    assert(visited[from.0 as int]) by {
        assert(q[0] == from);
    }
    assert(w.len() >= 2) by {
        if w.len() == 1 {
            assert(w.last() == w[0]);
        }
    }
    if hp == 0 {
        assert(depth[q[0].0 as int] == 0);
    } else {
        let pre = q.subrange(0, hp);
        assert(pre.contains(w[0])) by {
            assert(pre[0] == from);
        }
        assert(!pre.contains(w.last())) by {
            if pre.contains(target) {
                let k = choose|k: int| 0 <= k < pre.len() && pre[k] == target;
                assert(q[k] == target);
                assert(q.contains(target));
            }
        }
        let j = lemma_first_exit(g, w, pre);
        let z = w[j];
        let k = choose|k: int| 0 <= k < pre.len() && pre[k] == w[j - 1];
        assert(g.edge(q[k], z));
        assert(visited[z.0 as int]);
        assert(q.contains(z));
        let m = choose|m: int| 0 <= m < q.len() && q[m] == z;
        assert(m >= hp) by {
            if m < hp {
                assert(pre[m] == z);
            }
        }
        assert(depth[q[hp].0 as int] <= depth[q[m].0 as int]);
        let u = w.subrange(0, j + 1);
        assert forall|i: int| 0 <= i < u.len() - 1 implies #[trigger] step(g, false, u[i], u[i + 1]) by {
            assert(step(g, false, w[i], w[i + 1]));
        }
        assert(is_walk(g, false, u));
        assert(no_shorter(g, from, z, depth[z.0 as int] as int));
        assert(u.len() >= depth[z.0 as int] + 1);
        assert(j < w.len() - 1) by {
            if j == w.len() - 1 {
                assert(w[j] == target);
            }
        }
    }
}

/// A sequence of tasks read backwards is a walk along the edges.
pub open spec fn back_walk(g: Graph, b: Seq<TaskId>) -> bool {
    forall|i: int| 0 <= i < b.len() - 1 ==> #[trigger] g.edge(b[i + 1], b[i])
}


impl Graph {
    /// A depth-first visit from `start_task`, following the edges. Calls
    /// `visit` on each task of the visit record in order, with its depth, and stops at the first failure, which it returns.
    pub fn dfs_visit<E, F: Fn(TaskId, usize) -> Result<(), E>>(&self, start_task: TaskId, visit: F) -> (r: Result<(), VisitError<E>>)
        requires
            self.wf(),
            forall|t: TaskId, d: usize| #[trigger] visit.requires((t, d)),
        ensures
            !self.has_task(start_task) ==> (r matches Err(VisitError::Graph(e)) && e == (GraphError::TaskNotFound { task_id: start_task })),
            self.has_task(start_task) ==> exists|rec: Seq<(TaskId, usize)>| valid_traversal(*self, false, start_task, rec)
                && dfs_order(*self, false, rec) && #[trigger] visited_in_order(visit, rec, r),
    {
        if !self.contains_task(start_task) {
            return Err(VisitError::Graph(GraphError::TaskNotFound { task_id: start_task }));
        }
        let v = self.walk(start_task, false, false);
        proof {
        }
        let r = visit_record(&v, visit);
        proof {
            assert(visited_in_order(visit, v@, r));
        }
        r
    }

    /// A depth-first visit from `start_task`, against the edges. Calls `visit` on each task of the visit record in order, with
    /// its depth, and stops at the first failure, which it returns.
    pub fn rev_dfs_visit<E, F: Fn(TaskId, usize) -> Result<(), E>>(&self, start_task: TaskId, visit: F) -> (r: Result<(), VisitError<E>>)
        requires
            self.wf(),
            forall|t: TaskId, d: usize| #[trigger] visit.requires((t, d)),
        ensures
            !self.has_task(start_task) ==> (r matches Err(VisitError::Graph(e)) && e == (GraphError::TaskNotFound { task_id: start_task })),
            self.has_task(start_task) ==> exists|rec: Seq<(TaskId, usize)>| valid_traversal(*self, true, start_task, rec)
                && dfs_order(*self, true, rec) && #[trigger] visited_in_order(visit, rec, r),
    {
        if !self.contains_task(start_task) {
            return Err(VisitError::Graph(GraphError::TaskNotFound { task_id: start_task }));
        }
        let v = self.walk(start_task, true, false);
        proof {
        }
        let r = visit_record(&v, visit);
        proof {
            assert(visited_in_order(visit, v@, r));
        }
        r
    }

    /// A breadth-first visit from `start_task`, following the edges. Calls `visit` on each task of the visit record in order, with
    /// its depth, and stops at the first failure, which it returns.
    pub fn bfs_visit<E, F: Fn(TaskId, usize) -> Result<(), E>>(&self, start_task: TaskId, visit: F) -> (r: Result<(), VisitError<E>>)
        requires
            self.wf(),
            forall|t: TaskId, d: usize| #[trigger] visit.requires((t, d)),
        ensures
            !self.has_task(start_task) ==> (r matches Err(VisitError::Graph(e)) && e == (GraphError::TaskNotFound { task_id: start_task })),
            self.has_task(start_task) ==> exists|rec: Seq<(TaskId, usize)>| valid_traversal(*self, false, start_task, rec)
                && depths_sorted(rec) && (forall|k: int| 0 <= k < rec.len() ==> #[trigger] shortest_distance(*self, false, start_task, rec[k].0, rec[k].1 as int)) && #[trigger] visited_in_order(visit, rec, r),
    {
        if !self.contains_task(start_task) {
            return Err(VisitError::Graph(GraphError::TaskNotFound { task_id: start_task }));
        }
        let v = self.walk(start_task, false, true);
        proof {
            lemma_bfs_shortest(*self, false, start_task, v@);
        }
        let r = visit_record(&v, visit);
        proof {
            assert(visited_in_order(visit, v@, r));
        }
        r
    }

    /// A breadth-first visit from `start_task`, against the edges. Calls `visit` on each task of the visit record in order, with
    /// its depth, and stops at the first failure, which it returns.
    pub fn rev_bfs_visit<E, F: Fn(TaskId, usize) -> Result<(), E>>(&self, start_task: TaskId, visit: F) -> (r: Result<(), VisitError<E>>)
        requires
            self.wf(),
            forall|t: TaskId, d: usize| #[trigger] visit.requires((t, d)),
        ensures
            !self.has_task(start_task) ==> (r matches Err(VisitError::Graph(e)) && e == (GraphError::TaskNotFound { task_id: start_task })),
            self.has_task(start_task) ==> exists|rec: Seq<(TaskId, usize)>| valid_traversal(*self, true, start_task, rec)
                && depths_sorted(rec) && (forall|k: int| 0 <= k < rec.len() ==> #[trigger] shortest_distance(*self, true, start_task, rec[k].0, rec[k].1 as int)) && #[trigger] visited_in_order(visit, rec, r),
    {
        if !self.contains_task(start_task) {
            return Err(VisitError::Graph(GraphError::TaskNotFound { task_id: start_task }));
        }
        let v = self.walk(start_task, true, true);
        proof {
            lemma_bfs_shortest(*self, true, start_task, v@);
        }
        let r = visit_record(&v, visit);
        proof {
            assert(visited_in_order(visit, v@, r));
        }
        r
    }


    /// A depth-first visit record from `start_task`, following the edges:
    /// each task with the depth at which it was first reached.
    pub fn dfs(&self, start_task: TaskId) -> (r: Result<Vec<(TaskId, usize)>, GraphError>)
        requires
            self.wf(),
        ensures
            r is Err <==> !self.has_task(start_task),
            r matches Err(e) ==> e == (GraphError::TaskNotFound { task_id: start_task }),
            r matches Ok(v) ==> valid_traversal(*self, false, start_task, v@),
            r matches Ok(v) ==> dfs_order(*self, false, v@),
    {
        if !self.contains_task(start_task) {
            return Err(GraphError::TaskNotFound { task_id: start_task });
        }
        Ok(self.walk(start_task, false, false))
    }

    /// A depth-first visit record from `start_task`, against the edges: from
    /// a task to the tasks it depends on.
    pub fn rev_dfs(&self, start_task: TaskId) -> (r: Result<Vec<(TaskId, usize)>, GraphError>)
        requires
            self.wf(),
        ensures
            r is Err <==> !self.has_task(start_task),
            r matches Err(e) ==> e == (GraphError::TaskNotFound { task_id: start_task }),
            r matches Ok(v) ==> valid_traversal(*self, true, start_task, v@),
            r matches Ok(v) ==> dfs_order(*self, true, v@),
    {
        if !self.contains_task(start_task) {
            return Err(GraphError::TaskNotFound { task_id: start_task });
        }
        Ok(self.walk(start_task, true, false))
    }

    /// A breadth-first visit record from `start_task`, following the edges;
    /// its depths never decrease.
    pub fn bfs(&self, start_task: TaskId) -> (r: Result<Vec<(TaskId, usize)>, GraphError>)
        requires
            self.wf(),
        ensures
            r is Err <==> !self.has_task(start_task),
            r matches Err(e) ==> e == (GraphError::TaskNotFound { task_id: start_task }),
            r matches Ok(v) ==> valid_traversal(*self, false, start_task, v@) && depths_sorted(v@),
            r matches Ok(v) ==> forall|k: int| 0 <= k < v@.len()
                ==> #[trigger] shortest_distance(*self, false, start_task, v@[k].0, v@[k].1 as int),
    {
        if !self.contains_task(start_task) {
            return Err(GraphError::TaskNotFound { task_id: start_task });
        }
        let v = self.walk(start_task, false, true);
        proof {
            lemma_bfs_shortest(*self, false, start_task, v@);
        }
        Ok(v)
    }

    /// A breadth-first visit record from `start_task`, against the edges;
    /// its depths never decrease.
    pub fn rev_bfs(&self, start_task: TaskId) -> (r: Result<Vec<(TaskId, usize)>, GraphError>)
        requires
            self.wf(),
        ensures
            r is Err <==> !self.has_task(start_task),
            r matches Err(e) ==> e == (GraphError::TaskNotFound { task_id: start_task }),
            r matches Ok(v) ==> valid_traversal(*self, true, start_task, v@) && depths_sorted(v@),
            r matches Ok(v) ==> forall|k: int| 0 <= k < v@.len()
                ==> #[trigger] shortest_distance(*self, true, start_task, v@[k].0, v@[k].1 as int),
    {
        if !self.contains_task(start_task) {
            return Err(GraphError::TaskNotFound { task_id: start_task });
        }
        let v = self.walk(start_task, true, true);
        proof {
            lemma_bfs_shortest(*self, true, start_task, v@);
        }
        Ok(v)
    }

    /// The tasks reachable from `start_task` along the edges, in depth-first
    /// order, each once, `start_task` first.
    pub fn reachable_tasks(&self, start_task: TaskId) -> (r: Result<Vec<TaskId>, GraphError>)
        requires
            self.wf(),
        ensures
            r is Err <==> !self.has_task(start_task),
            r matches Err(e) ==> e == (GraphError::TaskNotFound { task_id: start_task }),
            r matches Ok(v) ==> v@.len() >= 1 && v@[0] == start_task && v@.no_duplicates()
                && forall|t: TaskId| #[trigger] v@.contains(t) <==> reaches(*self, false, start_task, t),
    {
        match self.dfs(start_task) {
            Err(e) => Err(e),
            Ok(visits) => {
                let mut v: Vec<TaskId> = Vec::new();
                let mut i: usize = 0;
                while i < visits.len()
                    invariant
                        i <= visits@.len(),
                        v@ == firsts(visits@.subrange(0, i as int)),
                    decreases visits@.len() - i,
                {
                    v.push(visits[i].0);
                    proof {
                        assert(firsts(visits@.subrange(0, i + 1)) =~= firsts(visits@.subrange(0, i as int)).push(visits@[i as int].0));
                    }
                    i = i + 1;
                }
                proof {
                    assert(visits@.subrange(0, visits@.len() as int) == visits@);
                }
                Ok(v)
            },
        }
    }

    /// A shortest path along the edges from `from` to `to`, found breadth
    /// first: no walk between them has fewer tasks. `None` when `to` cannot
    /// be reached.
    pub fn shortest_path(&self, from: TaskId, to: TaskId) -> (r: Result<Option<Vec<TaskId>>, GraphError>)
        requires
            self.wf(),
        ensures
            r is Err <==> !self.has_task(from) || !self.has_task(to),
            r matches Err(e) ==> e == GraphError::TasksNotFound,
            r matches Ok(Some(p)) ==> is_walk(*self, false, p@) && p@[0] == from && p@.last() == to,
            r matches Ok(Some(p)) ==> forall|w: Seq<TaskId>| #[trigger] is_walk(*self, false, w) && w[0] == from
                && w.last() == to ==> p@.len() <= w.len(),
            r matches Ok(None) ==> !reaches(*self, false, from, to),
            from == to && self.has_task(from) ==> (r matches Ok(Some(p)) && p@ == seq![from]),
    {
        if !self.contains_task(from) || !self.contains_task(to) {
            return Err(GraphError::TasksNotFound);
        }
        if from == to {
            return Ok(Some(vec![from]));
        }
        let mut visited: Vec<bool> = Vec::new();
        let mut parent: Vec<TaskId> = Vec::new();
        let mut depth: Vec<usize> = Vec::new();
        let mut c: usize = 0;
        while c < 256
            invariant
                c <= 256,
                visited@.len() == c,
                parent@.len() == c,
                depth@.len() == c,
                forall|x: int| 0 <= x < c ==> !visited@[x] && depth@[x] == 0,
            decreases 256 - c,
        {
            visited.push(false);
            parent.push(from);
            depth.push(0);
            c = c + 1;
        }
        let mut queue: Vec<TaskId> = Vec::new();
        queue.push(from);
        visited.set(from.0 as usize, true);
        proof {
            assert forall|x: TaskId| #[trigger] visited@[x.0 as int] <==> queue@.contains(x) by {
                if x == from {
                    assert(queue@[0] == x);
                } else {
                    assert(x.0 != from.0);
                }
            }
            assert forall|x: TaskId| visited@[x.0 as int] implies #[trigger] no_shorter(*self, from, x, depth@[x.0 as int] as int) by {
                assert(x.0 == from.0);
            }
        }
        let mut head: usize = 0;
        while head < queue.len()
            invariant
                self.wf(),
                self.has_task(from),
                self.has_task(to),
                from != to,
                head <= queue@.len(),
                queue@.len() <= 256,
                visited@.len() == 256,
                parent@.len() == 256,
                depth@.len() == 256,
                queue@.no_duplicates(),
                queue@[0] == from,
                queue@.len() >= 1,
                visited@[from.0 as int],
                depth@[from.0 as int] == 0,
                !visited@[to.0 as int],
                forall|x: TaskId| #[trigger] visited@[x.0 as int] <==> queue@.contains(x),
                forall|i: int| 0 <= i < queue@.len() ==> depth@[(#[trigger] queue@[i]).0 as int] <= i,
                forall|x: TaskId| visited@[x.0 as int] && x != from ==> {
                    let p = #[trigger] parent@[x.0 as int];
                    &&& visited@[p.0 as int]
                    &&& self.edge(p, x)
                    &&& depth@[x.0 as int] == depth@[p.0 as int] + 1
                },
                forall|i: int, y: TaskId| 0 <= i < head && #[trigger] self.edge(queue@[i], y) ==> visited@[y.0 as int] && y != to,
                forall|i: int, j: int| 0 <= i <= j < queue@.len() ==> depth@[(#[trigger] queue@[i]).0 as int] <= depth@[(#[trigger] queue@[j]).0 as int],
                head >= 1 ==> forall|j: int| 0 <= j < queue@.len() ==> depth@[(#[trigger] queue@[j]).0 as int] <= depth@[queue@[head - 1].0 as int] + 1,
                head == 0 ==> queue@.len() == 1,
                forall|x: TaskId| visited@[x.0 as int] ==> #[trigger] no_shorter(*self, from, x, depth@[x.0 as int] as int),
            decreases 256 - queue@.len(), queue@.len() - head,
        {
            let cur = queue[head];
            assert(queue@.contains(cur));
            proof {
                assert forall|j: int| 0 <= j < queue@.len() implies depth@[(#[trigger] queue@[j]).0 as int] <= depth@[cur.0 as int] + 1 by {
                    if head >= 1 {
                        assert(depth@[queue@[head - 1].0 as int] <= depth@[queue@[head as int].0 as int]);
                    } else {
                        assert(queue@[j] == from);
                    }
                }
            }
            head = head + 1;
            let nb = self.get_dependents(cur);
            let ghost qlen0 = queue@.len();
            let mut k: usize = 0;
            while k < nb.len()
                invariant
                    self.wf(),
                    self.has_task(from),
                    self.has_task(to),
                    from != to,
                    0 < head <= queue@.len(),
                    queue@.len() <= 256,
                    queue@.len() >= qlen0,
                    cur == queue@[head - 1],
                    visited@[cur.0 as int],
                    nb@ == self.succs(cur),
                    k <= nb@.len(),
                    visited@.len() == 256,
                    parent@.len() == 256,
                    depth@.len() == 256,
                    queue@.no_duplicates(),
                    queue@[0] == from,
                    queue@.len() >= 1,
                    visited@[from.0 as int],
                    depth@[from.0 as int] == 0,
                    !visited@[to.0 as int],
                    forall|x: TaskId| #[trigger] visited@[x.0 as int] <==> queue@.contains(x),
                    forall|i: int| 0 <= i < queue@.len() ==> depth@[(#[trigger] queue@[i]).0 as int] <= i,
                    forall|x: TaskId| visited@[x.0 as int] && x != from ==> {
                        let p = #[trigger] parent@[x.0 as int];
                        &&& visited@[p.0 as int]
                        &&& self.edge(p, x)
                        &&& depth@[x.0 as int] == depth@[p.0 as int] + 1
                    },
                    forall|i: int, y: TaskId| 0 <= i < head - 1 && #[trigger] self.edge(queue@[i], y) ==> visited@[y.0 as int] && y != to,
                    forall|j: int| 0 <= j < k ==> visited@[(#[trigger] nb@[j]).0 as int] && nb@[j] != to,
                    forall|i: int, j: int| 0 <= i <= j < queue@.len() ==> depth@[(#[trigger] queue@[i]).0 as int] <= depth@[(#[trigger] queue@[j]).0 as int],
                    forall|j: int| 0 <= j < queue@.len() ==> depth@[(#[trigger] queue@[j]).0 as int] <= depth@[cur.0 as int] + 1,
                    forall|x: TaskId| visited@[x.0 as int] ==> #[trigger] no_shorter(*self, from, x, depth@[x.0 as int] as int),
                decreases nb@.len() - k,
            {
                let next = nb[k];
                assert(self.edge(cur, next)) by {
                    assert(self.succs(cur)[k as int] == next);
                }
                if next == to {
                    let path = self.path_back(&parent, &depth, &visited, from, cur, to);
                    proof {
                        assert forall|w: Seq<TaskId>| #[trigger] is_walk(*self, false, w) && w[0] == from && w.last() == to implies path@.len() <= w.len() by {
                            lemma_bfs_bound(*self, from, queue@, head - 1, visited@, depth@, to, w);
                        }
                    }
                    return Ok(Some(path));
                }
                if !visited[next.0 as usize] {
                    proof {
                        assert(!queue@.contains(next));
                        assert(queue@.push(next).no_duplicates()) by {
                            assert forall|a: int, b: int| 0 <= a < b < queue@.len() + 1 implies queue@.push(next)[a] != queue@.push(next)[b] by {
                                if b == queue@.len() {
                                    assert(queue@.push(next)[a] == queue@[a]);
                                } else {
                                    assert(queue@[a] != queue@[b]);
                                }
                            }
                        }
                        lemma_distinct_bounded(queue@.push(next));
                        assert(depth@[cur.0 as int] <= head - 1);
                    }
                    let dc = depth[cur.0 as usize];
                    proof {
                        assert forall|w: Seq<TaskId>| #[trigger] is_walk(*self, false, w) && w[0] == from && w.last() == next implies w.len() >= dc + 2 by {
                            lemma_bfs_bound(*self, from, queue@, head - 1, visited@, depth@, next, w);
                        }
                    }
                    let ghost q0 = queue@;
                    let ghost v0 = visited@;
                    let ghost p0 = parent@;
                    let ghost d0 = depth@;
                    visited.set(next.0 as usize, true);
                    parent.set(next.0 as usize, cur);
                    depth.set(next.0 as usize, dc + 1);
                    queue.push(next);
                    proof {
                        assert forall|x: TaskId| #[trigger] visited@[x.0 as int] <==> queue@.contains(x) by {
                            if x == next {
                                assert(queue@[q0.len() as int] == x);
                            } else {
                                assert(visited@[x.0 as int] == v0[x.0 as int]);
                                if queue@.contains(x) {
                                    let m = choose|m: int| 0 <= m < queue@.len() && queue@[m] == x;
                                    assert(q0[m] == x);
                                }
                                if q0.contains(x) {
                                    let m = choose|m: int| 0 <= m < q0.len() && q0[m] == x;
                                    assert(queue@[m] == x);
                                }
                            }
                        }
                        assert forall|i: int| 0 <= i < queue@.len() implies depth@[(#[trigger] queue@[i]).0 as int] <= i by {
                            if i < q0.len() {
                                assert(queue@[i] == q0[i]);
                                assert(q0[i] != next);
                                assert(v0[q0[i].0 as int]);
                            }
                        }
                        assert forall|x: TaskId| visited@[x.0 as int] && x != from implies {
                            let p = #[trigger] parent@[x.0 as int];
                            &&& visited@[p.0 as int]
                            &&& self.edge(p, x)
                            &&& depth@[x.0 as int] == depth@[p.0 as int] + 1
                        } by {
                            if x != next {
                                assert(v0[x.0 as int]);
                                let p = p0[x.0 as int];
                                assert(parent@[x.0 as int] == p);
                                assert(v0[p.0 as int]);
                                assert(p != next);
                            } else {
                                assert(cur != next);
                            }
                        }
                        assert forall|i: int, y: TaskId| 0 <= i < head - 1 && #[trigger] self.edge(queue@[i], y) implies visited@[y.0 as int] && y != to by {
                            assert(queue@[i] == q0[i]);
                        }
                        assert forall|j: int| 0 <= j < k + 1 implies visited@[(#[trigger] nb@[j]).0 as int] && nb@[j] != to by {
                            if j < k {
                                assert(v0[nb@[j].0 as int]);
                            }
                        }
                        assert(queue@[0] == from);
                        assert(queue@[head - 1] == cur);
                        assert forall|i: int, j: int| 0 <= i <= j < queue@.len() implies depth@[(#[trigger] queue@[i]).0 as int] <= depth@[(#[trigger] queue@[j]).0 as int] by {
                            if j < q0.len() {
                                assert(queue@[i] == q0[i] && queue@[j] == q0[j]);
                                assert(q0[i] != next && q0[j] != next);
                                assert(v0[q0[i].0 as int] && v0[q0[j].0 as int]);
                            } else if i < q0.len() {
                                assert(queue@[i] == q0[i]);
                                assert(q0[i] != next);
                                assert(v0[q0[i].0 as int]);
                                assert(d0[q0[i].0 as int] <= d0[cur.0 as int] + 1);
                            }
                        }
                        assert forall|j: int| 0 <= j < queue@.len() implies depth@[(#[trigger] queue@[j]).0 as int] <= depth@[cur.0 as int] + 1 by {
                            if j < q0.len() {
                                assert(queue@[j] == q0[j]);
                                assert(q0[j] != next);
                                assert(v0[q0[j].0 as int]);
                            }
                        }
                        assert forall|x: TaskId| visited@[x.0 as int] implies #[trigger] no_shorter(*self, from, x, depth@[x.0 as int] as int) by {
                            if x != next {
                                assert(v0[x.0 as int]);
                                assert(no_shorter(*self, from, x, d0[x.0 as int] as int));
                            }
                        }
                    }
                }
                k = k + 1;
            }
            proof {
                assert forall|i: int, y: TaskId| 0 <= i < head && #[trigger] self.edge(queue@[i], y) implies visited@[y.0 as int] && y != to by {
                    if i == head - 1 {
                        assert(self.succs(cur).contains(y));
                        let j = choose|j: int| 0 <= j < nb@.len() && nb@[j] == y;
                        assert(visited@[nb@[j].0 as int]);
                    }
                }
            }
        }
        proof {
            if reaches(*self, false, from, to) {
                assert forall|u: TaskId, v: TaskId| queue@.contains(u) && #[trigger] step(*self, false, u, v) implies queue@.contains(v) by {
                    let i = choose|i: int| 0 <= i < queue@.len() && queue@[i] == u;
                    assert(self.edge(queue@[i], v));
                    assert(visited@[v.0 as int]);
                }
                assert(queue@.contains(from)) by { assert(queue@[0] == from); }
                lemma_closed_holds_reachable(*self, false, queue@, from, to);
                assert(visited@[to.0 as int]);
            }
        }
        Ok(None)
    }

    /// The path from `from` through the recorded parents to `cur`, then on to `to`.
    fn path_back(&self, parent: &Vec<TaskId>, depth: &Vec<usize>, visited: &Vec<bool>, from: TaskId, cur: TaskId, to: TaskId) -> (p: Vec<TaskId>)
        requires
            visited@.len() == 256,
            parent@.len() == 256,
            depth@.len() == 256,
            visited@[cur.0 as int],
            visited@[from.0 as int],
            self.edge(cur, to),
            depth@[from.0 as int] == 0,
            forall|x: TaskId| visited@[x.0 as int] && x != from ==> {
                let p = #[trigger] parent@[x.0 as int];
                &&& visited@[p.0 as int]
                &&& self.edge(p, x)
                &&& depth@[x.0 as int] == depth@[p.0 as int] + 1
            },
        ensures
            is_walk(*self, false, p@),
            p@[0] == from,
            p@.last() == to,
            p@.len() == depth@[cur.0 as int] + 2,
    {
        let mut back: Vec<TaskId> = Vec::new();
        back.push(to);
        let mut c = cur;
        while c != from
            invariant
                visited@.len() == 256,
                parent@.len() == 256,
                depth@.len() == 256,
                visited@[c.0 as int],
                back@.len() >= 1,
                back@[0] == to,
                back_walk(*self, back@),
                self.edge(c, back@.last()),
                depth@[from.0 as int] == 0,
                back@.len() + depth@[c.0 as int] == depth@[cur.0 as int] + 1,
                forall|x: TaskId| visited@[x.0 as int] && x != from ==> {
                    let p = #[trigger] parent@[x.0 as int];
                    &&& visited@[p.0 as int]
                    &&& self.edge(p, x)
                    &&& depth@[x.0 as int] == depth@[p.0 as int] + 1
                },
            decreases depth@[c.0 as int],
        {
            let ghost b0 = back@;
            back.push(c);
            let pc = parent[c.0 as usize];
            proof {
                assert(visited@[c.0 as int] && c != from);
                let q = parent@[c.0 as int];
                assert(q == pc);
                assert forall|i: int| 0 <= i < back@.len() - 1 implies #[trigger] self.edge(back@[i + 1], back@[i]) by {
                    if i < b0.len() - 1 {
                        assert(back@[i] == b0[i] && back@[i + 1] == b0[i + 1]);
                        assert(self.edge(b0[i + 1], b0[i]));
                    } else {
                        assert(back@[i] == b0.last());
                    }
                }
            }
            c = pc;
        }
        back.push(c);
        let ghost b = back@;
        proof {
            assert forall|i: int| 0 <= i < b.len() - 1 implies #[trigger] self.edge(b[i + 1], b[i]) by {
                if i < b.len() - 2 {
                    assert(b[i] == b.drop_last()[i] && b[i + 1] == b.drop_last()[i + 1]);
                }
            }
        }
        let n = back.len();
        let mut p: Vec<TaskId> = Vec::new();
        let mut i: usize = n;
        while i > 0
            invariant
                i <= n,
                n == b.len(),
                back@ == b,
                p@.len() == n - i,
                forall|m: int| 0 <= m < p@.len() ==> p@[m] == b[n - 1 - m],
            decreases i,
        {
            i = i - 1;
            p.push(back[i]);
        }
        proof {
            assert forall|m: int| 0 <= m < p@.len() - 1 implies #[trigger] step(*self, false, p@[m], p@[m + 1]) by {
                let j = n - 2 - m;
                assert(self.edge(b[j + 1], b[j]));
                assert(p@[m] == b[j + 1]);
                assert(p@[m + 1] == b[j]);
            }
            assert(p@[0] == b[n - 1]);
            assert(b[n - 1] == from);
        }
        p
    }
}


/// Two traversals from the same task in the same direction, depth first or
/// breadth first, visit the same tasks, as many of them.
pub proof fn lemma_traversals_visit_same_tasks(
    g: Graph,
    rev: bool,
    start: TaskId,
    a: Seq<(TaskId, usize)>,
    b: Seq<(TaskId, usize)>,
)
    requires
        valid_traversal(g, rev, start, a),
        valid_traversal(g, rev, start, b),
    ensures
        forall|t: TaskId| #[trigger] firsts(a).contains(t) <==> firsts(b).contains(t),
        a.len() == b.len(),
{
    assert forall|t: TaskId| #[trigger] firsts(a).contains(t) <==> firsts(b).contains(t) by {}
    firsts(a).unique_seq_to_set();
    firsts(b).unique_seq_to_set();
    assert(firsts(a).to_set() =~= firsts(b).to_set()) by {
        assert forall|t: TaskId| firsts(a).to_set().contains(t) <==> firsts(b).to_set().contains(t) by {
            assert(firsts(a).contains(t) <==> firsts(b).contains(t));
        }
    }
}

} // verus!
