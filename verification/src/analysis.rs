use vstd::prelude::*;

use crate::graph::{Graph, GraphError};
use crate::ids::TaskId;
use crate::traversal::{firsts, is_walk, lemma_reaches_refl, lemma_reaches_step, reaches, step, valid_traversal};

verus! {

/// `u` lies on a cycle: one of its edges leads back to it.
pub open spec fn on_cycle(g: Graph, u: TaskId) -> bool {
    exists|w: TaskId| #[trigger] g.edge(u, w) && reaches(g, false, w, u)
}

/// The graph has a cycle.
pub open spec fn has_cycle(g: Graph) -> bool {
    exists|u: TaskId| #[trigger] on_cycle(g, u)
}

/// The colours of a depth-first search: 0 for unseen, 1 for open, 2 for finished.
pub open spec fn white_set(c: Seq<u8>) -> Set<int> {
    Set::new(|i: int| 0 <= i < 256 && c[i] == 0)
}

/// The number of unseen tasks.
pub open spec fn whites(c: Seq<u8>) -> nat {
    white_set(c).len()
}

/// The state of a depth-first search: finished tasks are exactly those of
/// the finishing order `post`, each with its position there as rank, and
/// every edge from a finished task leads to a finished task of lower rank.
pub open spec fn dfs_state(g: Graph, color: Seq<u8>, fin: Seq<usize>, post: Seq<TaskId>) -> bool {
    &&& color.len() == 256
    &&& fin.len() == 256
    &&& forall|i: int| 0 <= i < 256 ==> #[trigger] color[i] <= 2
    &&& post.no_duplicates()
    &&& forall|x: TaskId| #[trigger] color[x.0 as int] == 2 <==> post.contains(x)
    &&& forall|k: int| 0 <= k < post.len() ==> fin[(#[trigger] post[k]).0 as int] == k
    &&& forall|k: int| 0 <= k < post.len() ==> g.has_task(#[trigger] post[k])
    &&& forall|x: TaskId, y: TaskId| color[x.0 as int] == 2 && #[trigger] g.edge(x, y)
        ==> color[y.0 as int] == 2 && fin[y.0 as int] < fin[x.0 as int]
}

/// The open tasks are exactly those of `path`.
pub open spec fn gray_is(color: Seq<u8>, path: Seq<TaskId>) -> bool {
    forall|x: TaskId| #[trigger] color[x.0 as int] == 1 <==> path.contains(x)
}

/// The unseen tasks are finite, and fewer where one more task was seen.
proof fn lemma_whites_shrink(c1: Seq<u8>, c2: Seq<u8>, u: int)
    requires
        c1.len() == 256,
        c2.len() == 256,
        0 <= u < 256,
        c1[u] == 0,
        c2[u] != 0,
        forall|i: int| 0 <= i < 256 && c2[i] == 0 ==> c1[i] == 0,
    ensures
        whites(c2) < whites(c1),
{
    vstd::set_lib::lemma_int_range(0, 256);
    let r = vstd::set_lib::set_int_range(0, 256);
    assert(white_set(c1).subset_of(r));
    vstd::set_lib::lemma_len_subset(white_set(c1), r);
    assert(white_set(c2).subset_of(white_set(c1).remove(u)));
    vstd::set_lib::lemma_len_subset(white_set(c2), white_set(c1).remove(u));
}

/// The unseen tasks do not grow where no task became unseen.
proof fn lemma_whites_mono(c1: Seq<u8>, c2: Seq<u8>)
    requires
        c1.len() == 256,
        c2.len() == 256,
        forall|i: int| 0 <= i < 256 && c2[i] == 0 ==> c1[i] == 0,
    ensures
        whites(c2) <= whites(c1),
{
    vstd::set_lib::lemma_int_range(0, 256);
    let r = vstd::set_lib::set_int_range(0, 256);
    vstd::set_lib::lemma_len_subset(white_set(c1), r);
    vstd::set_lib::lemma_len_subset(white_set(c2), white_set(c1));
}

/// An edge from the end of a walk back into it closes a cycle.
proof fn lemma_back_edge_cycle(g: Graph, p: Seq<TaskId>, j: int)
    requires
        is_walk(g, false, p),
        0 <= j < p.len(),
        g.edge(p.last(), p[j]),
    ensures
        has_cycle(g),
{
    if j == p.len() - 1 {
        lemma_reaches_refl(g, false, p[j]);
        assert(on_cycle(g, p[j]));
    } else {
        let w = p[j + 1];
        assert(step(g, false, p[j], p[j + 1]));
        let q = p.subrange(j + 1, p.len() as int);
        assert forall|i: int| 0 <= i < q.len() - 1 implies #[trigger] step(g, false, q[i], q[i + 1]) by {
            assert(q[i] == p[j + 1 + i] && q[i + 1] == p[j + 1 + i + 1]);
        }
        assert(is_walk(g, false, q) && q[0] == w && q.last() == p.last());
        lemma_reaches_step(g, false, w, p.last(), p[j]);
        assert(on_cycle(g, p[j]));
    }
}

/// Along a walk from a finished task, every task is finished and the ranks
/// never grow.
proof fn lemma_finished_walk(g: Graph, color: Seq<u8>, fin: Seq<usize>, post: Seq<TaskId>, p: Seq<TaskId>, k: int)
    requires
        dfs_state(g, color, fin, post),
        is_walk(g, false, p),
        color[p[0].0 as int] == 2,
        0 <= k < p.len(),
    ensures
        color[p[k].0 as int] == 2,
        fin[p[k].0 as int] <= fin[p[0].0 as int],
    decreases k,
{
    if k > 0 {
        lemma_finished_walk(g, color, fin, post, p, k - 1);
        assert(step(g, false, p[k - 1], p[k - 1 + 1]));
    }
}

/// With every task finished there is no cycle.
proof fn lemma_all_finished_acyclic(g: Graph, color: Seq<u8>, fin: Seq<usize>, post: Seq<TaskId>)
    requires
        g.wf(),
        dfs_state(g, color, fin, post),
        forall|t: TaskId| g.has_task(t) ==> #[trigger] color[t.0 as int] == 2,
    ensures
        !has_cycle(g),
{
    if has_cycle(g) {
        let u = choose|u: TaskId| #[trigger] on_cycle(g, u);
        let w = choose|w: TaskId| #[trigger] g.edge(u, w) && reaches(g, false, w, u);
        assert(g.has_task(u));
        assert(color[u.0 as int] == 2);
        assert(fin[w.0 as int] < fin[u.0 as int]);
        let p = choose|p: Seq<TaskId>| #[trigger] is_walk(g, false, p) && p[0] == w && p.last() == u;
        lemma_finished_walk(g, color, fin, post, p, p.len() - 1);
    }
}

impl Graph {
    /// Depth-first search from the unseen task `u`; `path` is the walk of
    /// open tasks leading to it. Tells whether a cycle was found; where none
    /// was, `u` and everything it reaches is finished.
    fn visit(&self, u: TaskId, color: &mut Vec<u8>, fin: &mut Vec<usize>, post: &mut Vec<TaskId>, Ghost(path): Ghost<Seq<TaskId>>) -> (cyc: bool)
        requires
            self.wf(),
            self.has_task(u),
            dfs_state(*self, old(color)@, old(fin)@, old(post)@),
            old(color)@[u.0 as int] == 0,
            gray_is(old(color)@, path),
            path.len() == 0 || (is_walk(*self, false, path) && self.edge(path.last(), u)),
        ensures
            cyc ==> has_cycle(*self),
            !cyc ==> dfs_state(*self, final(color)@, final(fin)@, final(post)@),
            !cyc ==> final(color)@[u.0 as int] == 2,
            !cyc ==> gray_is(final(color)@, path),
            !cyc ==> forall|i: int| 0 <= i < 256 && old(color)@[i] == 2 ==> #[trigger] final(color)@[i] == 2,
            !cyc ==> forall|i: int| 0 <= i < 256 && final(color)@[i] == 0 ==> #[trigger] old(color)@[i] == 0,
            !cyc ==> final(post)@.len() >= old(post)@.len(),
        decreases whites(old(color)@),
    {
        let ghost c0 = color@;
        let ghost me = if path.len() == 0 { seq![u] } else { path.push(u) };
        color.set(u.0 as usize, 1);
        proof {
            assert(me == path.push(u));
            assert(is_walk(*self, false, me)) by {
                if path.len() > 0 {
                    assert forall|i: int| 0 <= i < me.len() - 1 implies #[trigger] step(*self, false, me[i], me[i + 1]) by {
                        if i < path.len() - 1 {
                            assert(me[i] == path[i] && me[i + 1] == path[i + 1]);
                        }
                    }
                }
            }
            assert(gray_is(color@, me)) by {
                assert forall|x: TaskId| #[trigger] color@[x.0 as int] == 1 <==> me.contains(x) by {
                    if x == u {
                        assert(me[path.len() as int] == u);
                    } else {
                        assert(color@[x.0 as int] == c0[x.0 as int]);
                        if path.contains(x) {
                            let m = choose|m: int| 0 <= m < path.len() && path[m] == x;
                            assert(me[m] == x);
                        }
                        if me.contains(x) {
                            let m = choose|m: int| 0 <= m < me.len() && me[m] == x;
                            assert(path[m] == x);
                        }
                    }
                }
            }
            lemma_whites_shrink(c0, color@, u.0 as int);
        }
        let nb = self.get_dependents(u);
        let mut k: usize = 0;
        while k < nb.len()
            invariant
                self.wf(),
                self.has_task(u),
                nb@ == self.succs(u),
                k <= nb@.len(),
                is_walk(*self, false, me),
                me.last() == u,
                gray_is(color@, me),
                color@[u.0 as int] == 1,
                fin@.len() == 256,
                c0.len() == 256,
                c0 == old(color)@,
                whites(color@) < whites(c0),
                dfs_state(*self, color@, fin@, post@),
                forall|i: int| 0 <= i < 256 && c0[i] == 2 ==> #[trigger] color@[i] == 2,
                forall|i: int| 0 <= i < 256 && color@[i] == 0 ==> #[trigger] c0[i] == 0,
                post@.len() >= old(post)@.len(),
                forall|j: int| 0 <= j < k ==> color@[(#[trigger] nb@[j]).0 as int] == 2,
            decreases nb@.len() - k,
        {
            let v = nb[k];
            assert(self.edge(u, v)) by {
                assert(self.succs(u)[k as int] == v);
            }
            let cv = color[v.0 as usize];
            if cv == 1 {
                proof {
                    assert(me.contains(v));
                    let j = choose|j: int| 0 <= j < me.len() && me[j] == v;
                    lemma_back_edge_cycle(*self, me, j);
                }
                return true;
            }
            if cv == 0 {
                let ghost cb = color@;
                proof {
                    assert(whites(cb) < whites(c0));
                }
                let found = self.visit(v, color, fin, post, Ghost(me));
                if found {
                    return true;
                }
                proof {
                    lemma_whites_mono(cb, color@);
                }
            }
            proof {
                assert forall|j: int| 0 <= j < k + 1 implies color@[(#[trigger] nb@[j]).0 as int] == 2 by {}
            }
            k = k + 1;
        }
        let ghost cfin = color@;
        let ghost f0 = fin@;
        let ghost p0 = post@;
        let n = post.len();
        color.set(u.0 as usize, 2);
        fin.set(u.0 as usize, n);
        post.push(u);
        proof {
            assert(dfs_state(*self, cfin, f0, p0));
            assert(!p0.contains(u));
            assert(post@ == p0.push(u));
            assert(post@.no_duplicates()) by {
                assert forall|a: int, b: int| 0 <= a < post@.len() && 0 <= b < post@.len() && a != b implies post@[a] != post@[b] by {
                    if a == n as int {
                        assert(p0.contains(post@[b]) || b == n as int);
                    } else if b == n as int {
                        assert(p0.contains(post@[a]));
                    }
                }
            }
            assert forall|x: TaskId| #[trigger] color@[x.0 as int] == 2 <==> post@.contains(x) by {
                if x == u {
                    assert(post@[n as int] == u);
                } else {
                    assert(color@[x.0 as int] == cfin[x.0 as int]);
                    if post@.contains(x) {
                        let m = choose|m: int| 0 <= m < post@.len() && post@[m] == x;
                        assert(p0[m] == x);
                    }
                    if p0.contains(x) {
                        let m = choose|m: int| 0 <= m < p0.len() && p0[m] == x;
                        assert(post@[m] == x);
                    }
                }
            }
            assert forall|m: int| 0 <= m < post@.len() implies fin@[(#[trigger] post@[m]).0 as int] == m by {
                if m < n {
                    assert(post@[m] == p0[m]);
                    assert(p0.contains(p0[m]));
                    assert(p0[m] != u);
                }
            }
            assert forall|m: int| 0 <= m < post@.len() implies self.has_task(#[trigger] post@[m]) by {
                if m < n {
                    assert(post@[m] == p0[m]);
                }
            }
            assert forall|x: TaskId, y: TaskId| color@[x.0 as int] == 2 && #[trigger] self.edge(x, y)
                implies color@[y.0 as int] == 2 && fin@[y.0 as int] < fin@[x.0 as int] by {
                if x == u {
                    assert(self.succs(u).contains(y));
                    let j = choose|j: int| 0 <= j < nb@.len() && nb@[j] == y;
                    assert(cfin[nb@[j].0 as int] == 2);
                    assert(y != u);
                    assert(p0.contains(y));
                    let m = choose|m: int| 0 <= m < p0.len() && p0[m] == y;
                    assert(f0[p0[m].0 as int] == m);
                } else {
                    assert(cfin[x.0 as int] == 2);
                    assert(cfin[y.0 as int] == 2);
                    assert(y != u);
                }
            }
            assert(gray_is(color@, path)) by {
                assert forall|x: TaskId| #[trigger] color@[x.0 as int] == 1 <==> path.contains(x) by {
                    if x != u {
                        assert(color@[x.0 as int] == cfin[x.0 as int]);
                        if path.contains(x) {
                            let m = choose|m: int| 0 <= m < path.len() && path[m] == x;
                            assert(me[m] == x);
                        }
                        if me.contains(x) {
                            let m = choose|m: int| 0 <= m < me.len() && me[m] == x;
                            if m < path.len() {
                                assert(path[m] == x);
                            }
                        }
                    } else {
                        assert(!path.contains(u)) by {
                            if path.contains(u) {
                                let m = choose|m: int| 0 <= m < path.len() && path[m] == u;
                                assert(c0[u.0 as int] == 1);
                            }
                        }
                    }
                }
            }
        }
        false
    }

    /// Runs the depth-first search from every task in increasing order.
    /// Returns the finishing order, or `None` when a cycle was found.
    fn finishing_order(&self) -> (r: Option<Vec<TaskId>>)
        requires
            self.wf(),
        ensures
            r is None <==> has_cycle(*self),
            r matches Some(post) ==> post@.no_duplicates(),
            r matches Some(post) ==> forall|t: TaskId| #[trigger] post@.contains(t) <==> self.has_task(t),
            r matches Some(post) ==> forall|i: int, j: int| 0 <= i < post@.len() && 0 <= j < post@.len()
                && #[trigger] self.edge(post@[i], post@[j]) ==> j < i,
    {
        let mut color: Vec<u8> = Vec::new();
        let mut fin: Vec<usize> = Vec::new();
        let mut c: usize = 0;
        while c < 256
            invariant
                c <= 256,
                color@.len() == c,
                fin@.len() == c,
                forall|x: int| 0 <= x < c ==> color@[x] == 0,
            decreases 256 - c,
        {
            color.push(0);
            fin.push(0);
            c = c + 1;
        }
        let mut post: Vec<TaskId> = Vec::new();
        let keys = self.task_ids();
        proof {
            self.lemma_task_seq();
        }
        let mut i: usize = 0;
        while i < keys.len()
            invariant
                self.wf(),
                keys@ == self.task_seq(),
                forall|t: TaskId| #[trigger] keys@.contains(t) <==> self.has_task(t),
                i <= keys@.len(),
                dfs_state(*self, color@, fin@, post@),
                gray_is(color@, Seq::<TaskId>::empty()),
                forall|j: int| 0 <= j < i ==> color@[(#[trigger] keys@[j]).0 as int] == 2,
            decreases keys@.len() - i,
        {
            let t = keys[i];
            assert(keys@.contains(t));
            if color[t.0 as usize] == 0 {
                let ghost cb = color@;
                if self.visit(t, &mut color, &mut fin, &mut post, Ghost(Seq::<TaskId>::empty())) {
                    return None;
                }
                proof {
                    assert forall|j: int| 0 <= j < i implies color@[(#[trigger] keys@[j]).0 as int] == 2 by {
                        assert(cb[keys@[j].0 as int] == 2);
                    }
                }
            } else {
                proof {
                    let cc = color@;
                    if cc[t.0 as int] == 1 {
                        assert(Seq::<TaskId>::empty().contains(t));
                    }
                }
            }
            i = i + 1;
        }
        proof {
            assert forall|t: TaskId| self.has_task(t) implies #[trigger] color@[t.0 as int] == 2 by {
                assert(keys@.contains(t));
                let j = choose|j: int| 0 <= j < keys@.len() && keys@[j] == t;
                assert(color@[keys@[j].0 as int] == 2);
            }
            lemma_all_finished_acyclic(*self, color@, fin@, post@);
            assert forall|t: TaskId| #[trigger] post@.contains(t) <==> self.has_task(t) by {
                if self.has_task(t) {
                    assert(color@[t.0 as int] == 2);
                }
                if post@.contains(t) {
                    let m = choose|m: int| 0 <= m < post@.len() && post@[m] == t;
                    assert(self.has_task(post@[m]));
                }
            }
            assert forall|i: int, j: int| 0 <= i < post@.len() && 0 <= j < post@.len()
                && #[trigger] self.edge(post@[i], post@[j]) implies j < i by {
                assert(post@.contains(post@[i]));
                assert(fin@[post@[i].0 as int] == i);
                assert(fin@[post@[j].0 as int] == j);
            }
        }
        Some(post)
    }

    /// Whether the graph has a cycle.
    pub fn has_cycles(&self) -> (r: Result<bool, GraphError>)
        requires
            self.wf(),
        ensures
            r == Ok::<bool, GraphError>(has_cycle(*self)),
    {
        match self.finishing_order() {
            Some(_) => Ok(false),
            None => Ok(true),
        }
    }

    /// Whether the graph is acyclic.
    pub fn is_dag(&self) -> (r: Result<bool, GraphError>)
        requires
            self.wf(),
        ensures
            r == Ok::<bool, GraphError>(!has_cycle(*self)),
    {
        match self.has_cycles() {
            Ok(c) => Ok(!c),
            Err(e) => Err(e),
        }
    }
}

/// `x` and `y` reach each other.
pub open spec fn same_scc(g: Graph, x: TaskId, y: TaskId) -> bool {
    reaches(g, false, x, y) && reaches(g, false, y, x)
}

/// `c` is a strongly connected component: a task first, then exactly the
/// tasks that reach it and that it reaches, each once.
pub open spec fn is_scc(g: Graph, c: Seq<TaskId>) -> bool {
    &&& c.len() >= 1
    &&& c.no_duplicates()
    &&& forall|y: TaskId| #[trigger] c.contains(y) <==> (g.has_task(y) && same_scc(g, c[0], y))
}

/// Every task lies in one of the sequences of `cs`.
pub open spec fn covers(g: Graph, cs: Seq<Vec<TaskId>>) -> bool {
    forall|t: TaskId| #[trigger] g.has_task(t) ==> exists|i: int| 0 <= i < cs.len() && (#[trigger] cs[i])@.contains(t)
}

/// Walks compose.
pub proof fn lemma_reaches_trans(g: Graph, a: TaskId, b: TaskId, c: TaskId)
    requires
        reaches(g, false, a, b),
        reaches(g, false, b, c),
    ensures
        reaches(g, false, a, c),
{
    let p = choose|p: Seq<TaskId>| #[trigger] is_walk(g, false, p) && p[0] == a && p.last() == b;
    let q = choose|q: Seq<TaskId>| #[trigger] is_walk(g, false, q) && q[0] == b && q.last() == c;
    let r = p + q.drop_first();
    assert forall|i: int| 0 <= i < r.len() - 1 implies #[trigger] step(g, false, r[i], r[i + 1]) by {
        if i < p.len() - 1 {
            assert(r[i] == p[i] && r[i + 1] == p[i + 1]);
        } else if i == p.len() - 1 {
            assert(r[i] == q[0] && r[i + 1] == q[1]);
        } else {
            let k = i - p.len() + 1;
            assert(r[i] == q[k] && r[i + 1] == q[k + 1]);
        }
    }
    if q.len() == 1 {
        assert(r.last() == p.last());
    } else {
        assert(r.last() == q.last());
    }
    assert(is_walk(g, false, r) && r[0] == a && r.last() == c);
}

/// A walk against the edges, read backwards, is a walk along them.
pub proof fn lemma_reaches_rev(g: Graph, a: TaskId, b: TaskId)
    ensures
        reaches(g, true, a, b) <==> reaches(g, false, b, a),
{
    if reaches(g, true, a, b) {
        let p = choose|p: Seq<TaskId>| #[trigger] is_walk(g, true, p) && p[0] == a && p.last() == b;
        let q = p.reverse();
        assert forall|i: int| 0 <= i < q.len() - 1 implies #[trigger] step(g, false, q[i], q[i + 1]) by {
            let j = p.len() - 2 - i;
            assert(step(g, true, p[j], p[j + 1]));
        }
        assert(is_walk(g, false, q) && q[0] == b && q.last() == a);
    }
    if reaches(g, false, b, a) {
        let p = choose|p: Seq<TaskId>| #[trigger] is_walk(g, false, p) && p[0] == b && p.last() == a;
        let q = p.reverse();
        assert forall|i: int| 0 <= i < q.len() - 1 implies #[trigger] step(g, true, q[i], q[i + 1]) by {
            let j = p.len() - 2 - i;
            assert(step(g, false, p[j], p[j + 1]));
        }
        assert(is_walk(g, true, q) && q[0] == a && q.last() == b);
    }
}

/// What a task reaches is a task.
pub proof fn lemma_reached_is_task(g: Graph, a: TaskId, b: TaskId)
    requires
        g.wf(),
        g.has_task(a),
        reaches(g, false, a, b),
    ensures
        g.has_task(b),
{
    let p = choose|p: Seq<TaskId>| #[trigger] is_walk(g, false, p) && p[0] == a && p.last() == b;
    if p.len() > 1 {
        assert(step(g, false, p[p.len() - 2], p[p.len() - 2 + 1]));
    }
}

/// A task lies on a cycle exactly when its component has another task or
/// it has an edge to itself.
pub proof fn lemma_cycle_in_scc(g: Graph, c: Seq<TaskId>, x: TaskId)
    requires
        g.wf(),
        is_scc(g, c),
        c.contains(x),
    ensures
        on_cycle(g, x) <==> (c.len() > 1 || g.edge(c[0], c[0])),
{
    assert(c.contains(c[0]));
    assert(same_scc(g, c[0], x));
    if on_cycle(g, x) {
        let w = choose|w: TaskId| #[trigger] g.edge(x, w) && reaches(g, false, w, x);
        if w != x {
            assert(reaches(g, false, x, w)) by {
                lemma_reaches_refl(g, false, x);
                lemma_reaches_step(g, false, x, x, w);
            }
            lemma_reaches_trans(g, c[0], x, w);
            lemma_reaches_trans(g, w, x, c[0]);
            assert(g.has_task(w));
            assert(c.contains(w));
            if c.len() == 1 {
                let m = choose|m: int| 0 <= m < c.len() && c[m] == w;
                let m2 = choose|m: int| 0 <= m < c.len() && c[m] == x;
            }
        } else {
            if c.len() == 1 {
                let m2 = choose|m: int| 0 <= m < c.len() && c[m] == x;
                assert(x == c[0]);
            }
        }
    }
    if c.len() > 1 {
        let y = if c[0] == x { c[1] } else { c[0] };
        assert(c.contains(y)) by {
            if c[0] == x { assert(c[1] == y); }
        }
        assert(y != x) by {
            if c[0] == x { assert(c[0] != c[1]); }
        }
        assert(same_scc(g, c[0], y));
        lemma_reaches_trans(g, x, c[0], y);
        lemma_reaches_trans(g, y, c[0], x);
        let p = choose|p: Seq<TaskId>| #[trigger] is_walk(g, false, p) && p[0] == x && p.last() == y;
        assert(p.len() > 1);
        assert(step(g, false, p[0], p[0int + 1]));
        let w = p[1];
        let q = p.drop_first();
        assert forall|i: int| 0 <= i < q.len() - 1 implies #[trigger] step(g, false, q[i], q[i + 1]) by {
            assert(step(g, false, p[i + 1], p[i + 1 + 1]));
        }
        assert(is_walk(g, false, q) && q[0] == w && q.last() == y);
        lemma_reaches_trans(g, w, y, x);
        assert(on_cycle(g, x));
    } else if g.edge(c[0], c[0]) {
        let m2 = choose|m: int| 0 <= m < c.len() && c[m] == x;
        assert(x == c[0]);
        lemma_reaches_refl(g, false, x);
        assert(on_cycle(g, x));
    }
}

/// How many of the first `n` task identifiers reach `t`.
pub open spec fn ancestor_count(g: Graph, t: TaskId, n: nat) -> nat
    decreases n,
{
    if n == 0 {
        0
    } else {
        ancestor_count(g, t, (n - 1) as nat) + if reaches(g, false, TaskId((n - 1) as u8), t) { 1nat } else { 0nat }
    }
}

/// Whatever reaches `u` also reaches `t`, and `t` itself does not reach
/// `u`: fewer identifiers reach `u` than `t`.
proof fn lemma_ancestor_count(g: Graph, u: TaskId, t: TaskId, n: nat)
    requires
        n <= 256,
        forall|x: TaskId| #[trigger] reaches(g, false, x, u) ==> reaches(g, false, x, t),
        !reaches(g, false, t, u),
    ensures
        ancestor_count(g, u, n) <= ancestor_count(g, t, n),
        n > t.0 ==> ancestor_count(g, u, n) < ancestor_count(g, t, n),
    decreases n,
{
    if n > 0 {
        lemma_ancestor_count(g, u, t, (n - 1) as nat);
        let x = TaskId((n - 1) as u8);
        if reaches(g, false, x, u) {
            assert(reaches(g, false, x, t));
        }
        if n - 1 == t.0 {
            assert(x == t);
            lemma_reaches_refl(g, false, t);
        }
    }
}

/// In a graph without cycles, every task is reached from a task that
/// nothing leads to.
pub proof fn lemma_reached_from_root(g: Graph, t: TaskId)
    requires
        g.wf(),
        !has_cycle(g),
        g.has_task(t),
    ensures
        exists|r: TaskId| g.has_task(r) && !crate::graph::has_incoming(g, r) && #[trigger] reaches(g, false, r, t),
    decreases ancestor_count(g, t, 256),
{
    lemma_reaches_refl(g, false, t);
    if crate::graph::has_incoming(g, t) {
        let u = choose|u: TaskId| #[trigger] g.edge(u, t);
        assert(g.has_task(u));
        assert forall|x: TaskId| #[trigger] reaches(g, false, x, u) implies reaches(g, false, x, t) by {
            lemma_reaches_step(g, false, x, u, t);
        }
        if reaches(g, false, t, u) {
            assert(on_cycle(g, u));
        }
        lemma_ancestor_count(g, u, t, 256);
        lemma_reached_from_root(g, u);
        let r = choose|r: TaskId| g.has_task(r) && !crate::graph::has_incoming(g, r) && #[trigger] reaches(g, false, r, u);
        lemma_reaches_step(g, false, r, u, t);
    }
}

/// `o` holds every task once, and every edge leads forwards in it.
pub open spec fn is_topo_order(g: Graph, o: Seq<TaskId>) -> bool {
    &&& o.no_duplicates()
    &&& forall|t: TaskId| #[trigger] o.contains(t) <==> g.has_task(t)
    &&& forall|i: int, j: int| 0 <= i < o.len() && 0 <= j < o.len() && #[trigger] g.edge(o[i], o[j]) ==> i < j
}

impl Graph {
    /// The tasks in an order in which every edge leads forwards; an error
    /// when the graph has a cycle.
    pub fn topological_sort(&self) -> (r: Result<Vec<TaskId>, GraphError>)
        requires
            self.wf(),
        ensures
            r is Err <==> has_cycle(*self),
            r matches Err(e) ==> e == GraphError::CyclesPresent,
            r matches Ok(v) ==> is_topo_order(*self, v@),
    {
        match self.finishing_order() {
            None => Err(GraphError::CyclesPresent),
            Some(post) => {
                let n = post.len();
                let mut order: Vec<TaskId> = Vec::new();
                let mut i: usize = n;
                while i > 0
                    invariant
                        i <= n,
                        n == post@.len(),
                        order@.len() == n - i,
                        forall|m: int| 0 <= m < order@.len() ==> order@[m] == post@[n - 1 - m],
                    decreases i,
                {
                    i = i - 1;
                    order.push(post[i]);
                }
                proof {
                    assert(order@ =~= post@.reverse());
                    assert forall|a: int, b: int| 0 <= a < order@.len() && 0 <= b < order@.len() && a != b
                        implies order@[a] != order@[b] by {
                        assert(post@[n - 1 - a] != post@[n - 1 - b]);
                    }
                    assert forall|t: TaskId| #[trigger] order@.contains(t) <==> self.has_task(t) by {
                        if order@.contains(t) {
                            let m = choose|m: int| 0 <= m < order@.len() && order@[m] == t;
                            assert(post@[n - 1 - m] == t);
                            assert(post@.contains(t));
                        }
                        if self.has_task(t) {
                            assert(post@.contains(t));
                            let m = choose|m: int| 0 <= m < post@.len() && post@[m] == t;
                            assert(order@[n - 1 - m] == t);
                        }
                    }
                    assert forall|a: int, b: int| 0 <= a < order@.len() && 0 <= b < order@.len()
                        && #[trigger] self.edge(order@[a], order@[b]) implies a < b by {
                        assert(self.edge(post@[n - 1 - a], post@[n - 1 - b]));
                    }
                }
                Ok(order)
            },
        }
    }
}

/// A table of 256 flags, one per task identifier, false everywhere.
pub(crate) fn no_flags() -> (r: Vec<bool>)
    ensures
        r@.len() == 256,
        forall|i: int| 0 <= i < 256 ==> !r@[i],
{
    let mut r: Vec<bool> = Vec::new();
    let mut c: usize = 0;
    while c < 256
        invariant
            c <= 256,
            r@.len() == c,
            forall|x: int| 0 <= x < c ==> !r@[x],
        decreases 256 - c,
    {
        r.push(false);
        c = c + 1;
    }
    r
}

impl Graph {
    /// The strongly connected component of `t`, `t` first.
    fn component_of(&self, t: TaskId) -> (c: Vec<TaskId>)
        requires
            self.wf(),
            self.has_task(t),
        ensures
            is_scc(*self, c@),
            c@[0] == t,
    {
        let fwd = self.walk(t, false, false);
        let bwd = self.walk(t, true, false);
        let mut inb = no_flags();
        let mut k: usize = 0;
        while k < bwd.len()
            invariant
                k <= bwd@.len(),
                inb@.len() == 256,
                forall|x: TaskId| #[trigger] inb@[x.0 as int] <==> firsts(bwd@).subrange(0, k as int).contains(x),
            decreases bwd@.len() - k,
        {
            let x = bwd[k].0;
            let ghost i0 = inb@;
            inb.set(x.0 as usize, true);
            proof {
                let s0 = firsts(bwd@).subrange(0, k as int);
                let s1 = firsts(bwd@).subrange(0, k + 1);
                assert(s1 == s0.push(x));
                assert forall|y: TaskId| #[trigger] inb@[y.0 as int] <==> s1.contains(y) by {
                    if y == x {
                        assert(s1[k as int] == x);
                    } else {
                        assert(inb@[y.0 as int] == i0[y.0 as int]);
                        if s1.contains(y) {
                            let m = choose|m: int| 0 <= m < s1.len() && s1[m] == y;
                            assert(s0[m] == y);
                        }
                        if s0.contains(y) {
                            let m = choose|m: int| 0 <= m < s0.len() && s0[m] == y;
                            assert(s1[m] == y);
                        }
                    }
                }
            }
            k = k + 1;
        }
        proof {
            assert(firsts(bwd@).subrange(0, bwd@.len() as int) == firsts(bwd@));
            assert forall|x: TaskId| #[trigger] inb@[x.0 as int] <==> reaches(*self, false, x, t) by {
                lemma_reaches_rev(*self, t, x);
            }
        }
        let mut c: Vec<TaskId> = Vec::new();
        c.push(t);
        let ghost f = firsts(fwd@);
        proof {
            assert(f[0] == t);
            lemma_reaches_refl(*self, false, t);
            assert forall|y: TaskId| #[trigger] c@.contains(y) <==> (f.subrange(0, 1).contains(y) && reaches(*self, false, y, t)) by {
                if c@.contains(y) {
                    assert(c@[0] == y);
                    assert(f.subrange(0, 1)[0] == y);
                }
                if f.subrange(0, 1).contains(y) {
                    assert(f.subrange(0, 1)[0] == y);
                    assert(c@[0] == y);
                }
            }
        }
        let mut m: usize = 1;
        while m < fwd.len()
            invariant
                1 <= m <= fwd@.len(),
                f == firsts(fwd@),
                f.no_duplicates(),
                f[0] == t,
                inb@.len() == 256,
                forall|x: TaskId| #[trigger] inb@[x.0 as int] <==> reaches(*self, false, x, t),
                c@.len() >= 1,
                c@[0] == t,
                c@.no_duplicates(),
                forall|y: TaskId| #[trigger] c@.contains(y) <==> (f.subrange(0, m as int).contains(y) && reaches(*self, false, y, t)),
            decreases fwd@.len() - m,
        {
            let x = fwd[m].0;
            assert(x == f[m as int]);
            let ghost c0 = c@;
            if inb[x.0 as usize] {
                proof {
                    assert(!f.subrange(0, m as int).contains(x)) by {
                        if f.subrange(0, m as int).contains(x) {
                            let q = choose|q: int| 0 <= q < m && f.subrange(0, m as int)[q] == x;
                            assert(f[q] == f[m as int]);
                        }
                    }
                    assert(!c0.contains(x));
                }
                c.push(x);
                proof {
                    assert forall|a: int, b: int| 0 <= a < c@.len() && 0 <= b < c@.len() && a != b implies c@[a] != c@[b] by {
                        if a == c0.len() {
                            assert(c0.contains(c@[b]));
                        } else if b == c0.len() {
                            assert(c0.contains(c@[a]));
                        }
                    }
                }
            }
            proof {
                let s0 = f.subrange(0, m as int);
                let s1 = f.subrange(0, m + 1);
                assert(s1 == s0.push(x));
                assert forall|y: TaskId| #[trigger] c@.contains(y) <==> (s1.contains(y) && reaches(*self, false, y, t)) by {
                    if c@.contains(y) {
                        let q = choose|q: int| 0 <= q < c@.len() && c@[q] == y;
                        if q < c0.len() {
                            assert(c0[q] == y);
                            assert(c0.contains(y));
                            let q2 = choose|q2: int| 0 <= q2 < s0.len() && s0[q2] == y;
                            assert(s1[q2] == y);
                        } else {
                            assert(y == x);
                            assert(s1[m as int] == y);
                        }
                    }
                    if s1.contains(y) && reaches(*self, false, y, t) {
                        let q = choose|q: int| 0 <= q < s1.len() && s1[q] == y;
                        if q < m {
                            assert(s0[q] == y);
                            assert(c0.contains(y));
                            let q2 = choose|q2: int| 0 <= q2 < c0.len() && c0[q2] == y;
                            assert(c@[q2] == y);
                        } else {
                            assert(y == x);
                            assert(c@[c@.len() - 1] == y);
                        }
                    }
                }
            }
            m = m + 1;
        }
        proof {
            assert(f.subrange(0, fwd@.len() as int) == f);
            assert forall|y: TaskId| #[trigger] c@.contains(y) <==> (self.has_task(y) && same_scc(*self, c@[0], y)) by {
                if c@.contains(y) {
                    assert(f.contains(y));
                    lemma_reached_is_task(*self, t, y);
                }
            }
        }
        c
    }

    /// The strongly connected components of the graph: disjoint, together
    /// holding every task, each led by the first of its tasks in increasing
    /// order of identifier.
    pub fn strongly_connected_components(&self) -> (r: Result<Vec<Vec<TaskId>>, GraphError>)
        requires
            self.wf(),
        ensures
            r is Ok,
            r matches Ok(cs) ==> forall|i: int| 0 <= i < cs@.len() ==> is_scc(*self, #[trigger] cs@[i]@),
            r matches Ok(cs) ==> forall|i: int, j: int| 0 <= i < j < cs@.len()
                ==> !same_scc(*self, (#[trigger] cs@[i])@[0], (#[trigger] cs@[j])@[0]),
            r matches Ok(cs) ==> covers(*self, cs@),
    {
        let keys = self.task_ids();
        proof {
            self.lemma_task_seq();
        }
        let mut assigned = no_flags();
        let mut cs: Vec<Vec<TaskId>> = Vec::new();
        let mut i: usize = 0;
        while i < keys.len()
            invariant
                self.wf(),
                i <= keys@.len(),
                keys@ == self.task_seq(),
                forall|t: TaskId| #[trigger] keys@.contains(t) <==> self.has_task(t),
                assigned@.len() == 256,
                forall|x: TaskId| #[trigger] assigned@[x.0 as int]
                    <==> exists|j: int| 0 <= j < cs@.len() && (#[trigger] cs@[j])@.contains(x),
                forall|j: int| 0 <= j < cs@.len() ==> is_scc(*self, #[trigger] cs@[j]@),
                forall|a: int, b: int| 0 <= a < b < cs@.len()
                    ==> !same_scc(*self, (#[trigger] cs@[a])@[0], (#[trigger] cs@[b])@[0]),
                forall|q: int| 0 <= q < i ==> assigned@[(#[trigger] keys@[q]).0 as int],
            decreases keys@.len() - i,
        {
            let t = keys[i];
            assert(keys@.contains(t));
            if !assigned[t.0 as usize] {
                let comp = self.component_of(t);
                let ghost a0 = assigned@;
                let ghost cs0 = cs@;
                let mut k: usize = 0;
                while k < comp.len()
                    invariant
                        k <= comp@.len(),
                        assigned@.len() == 256,
                        forall|x: TaskId| #[trigger] assigned@[x.0 as int]
                            <==> (a0[x.0 as int] || comp@.subrange(0, k as int).contains(x)),
                    decreases comp@.len() - k,
                {
                    let x = comp[k];
                    let ghost ak = assigned@;
                    assigned.set(x.0 as usize, true);
                    proof {
                        let s0 = comp@.subrange(0, k as int);
                        let s1 = comp@.subrange(0, k + 1);
                        assert(s1 == s0.push(x));
                        assert forall|y: TaskId| #[trigger] assigned@[y.0 as int] <==> (a0[y.0 as int] || s1.contains(y)) by {
                            if y == x {
                                assert(s1[k as int] == x);
                            } else {
                                assert(assigned@[y.0 as int] == ak[y.0 as int]);
                                if s1.contains(y) {
                                    let m = choose|m: int| 0 <= m < s1.len() && s1[m] == y;
                                    assert(s0[m] == y);
                                }
                                if s0.contains(y) {
                                    let m = choose|m: int| 0 <= m < s0.len() && s0[m] == y;
                                    assert(s1[m] == y);
                                }
                            }
                        }
                    }
                    k = k + 1;
                }
                cs.push(comp);
                proof {
                    assert(comp@.subrange(0, comp@.len() as int) == comp@);
                    assert(cs@[cs0.len() as int] == comp);
                    assert forall|x: TaskId| #[trigger] assigned@[x.0 as int]
                        <==> exists|j: int| 0 <= j < cs@.len() && (#[trigger] cs@[j])@.contains(x) by {
                        if assigned@[x.0 as int] {
                            if a0[x.0 as int] {
                                let j = choose|j: int| 0 <= j < cs0.len() && (#[trigger] cs0[j])@.contains(x);
                                assert(cs@[j] == cs0[j]);
                            } else {
                                assert(cs@[cs0.len() as int]@.contains(x));
                            }
                        }
                        if exists|j: int| 0 <= j < cs@.len() && (#[trigger] cs@[j])@.contains(x) {
                            let j = choose|j: int| 0 <= j < cs@.len() && (#[trigger] cs@[j])@.contains(x);
                            if j < cs0.len() {
                                assert(cs0[j] == cs@[j]);
                                assert(a0[x.0 as int]);
                            }
                        }
                    }
                    assert forall|j: int| 0 <= j < cs@.len() implies is_scc(*self, #[trigger] cs@[j]@) by {
                        if j < cs0.len() {
                            assert(cs@[j] == cs0[j]);
                        }
                    }
                    assert forall|a: int, b: int| 0 <= a < b < cs@.len()
                        implies !same_scc(*self, (#[trigger] cs@[a])@[0], (#[trigger] cs@[b])@[0]) by {
                        if b == cs0.len() {
                            assert(cs@[a] == cs0[a]);
                            assert(is_scc(*self, cs0[a]@));
                            if same_scc(*self, cs0[a]@[0], t) {
                                assert(cs0[a]@.contains(t));
                                assert(a0[t.0 as int]);
                            }
                        } else {
                            assert(cs@[a] == cs0[a] && cs@[b] == cs0[b]);
                        }
                    }
                    assert forall|q: int| 0 <= q < i + 1 implies assigned@[(#[trigger] keys@[q]).0 as int] by {
                        if q == i {
                            assert(comp@[0] == t);
                            assert(comp@.contains(t));
                        }
                    }
                }
            }
            i = i + 1;
        }
        proof {
            assert forall|t: TaskId| self.has_task(t)
                implies exists|i: int| 0 <= i < cs@.len() && (#[trigger] cs@[i])@.contains(t) by {
                assert(keys@.contains(t));
                let q = choose|q: int| 0 <= q < keys@.len() && keys@[q] == t;
                assert(assigned@[keys@[q].0 as int]);
                assert(assigned@[t.0 as int]);
                let j = choose|j: int| 0 <= j < cs@.len() && (#[trigger] cs@[j])@.contains(t);
                assert(0 <= j < cs@.len() && cs@[j]@.contains(t));
            }
            assert(covers(*self, cs@));
        }
        Ok(cs)
    }
}

/// A component holds a cycle: it has more than one task, or its task has an
/// edge to itself.
pub open spec fn cyclic(g: Graph, c: Seq<TaskId>) -> bool {
    c.len() > 1 || g.edge(c[0], c[0])
}

/// The tasks of the sequences of `cs` are exactly the tasks on a cycle.
pub open spec fn cycle_cover(g: Graph, cs: Seq<Vec<TaskId>>) -> bool {
    forall|t: TaskId| #[trigger] on_cycle(g, t) <==> exists|i: int| 0 <= i < cs.len() && (#[trigger] cs[i])@.contains(t)
}

impl Graph {
    /// The strongly connected components that hold a cycle, in the order of
    /// `strongly_connected_components`.
    pub fn find_cycles(&self) -> (r: Result<Vec<Vec<TaskId>>, GraphError>)
        requires
            self.wf(),
        ensures
            r is Ok,
            r matches Ok(cs) ==> forall|i: int| 0 <= i < cs@.len()
                ==> is_scc(*self, #[trigger] cs@[i]@) && cyclic(*self, cs@[i]@),
            r matches Ok(cs) ==> forall|i: int, j: int| 0 <= i < j < cs@.len()
                ==> !same_scc(*self, (#[trigger] cs@[i])@[0], (#[trigger] cs@[j])@[0]),
            r matches Ok(cs) ==> cycle_cover(*self, cs@),
    {
        let comps = match self.strongly_connected_components() {
            Ok(c) => c,
            Err(e) => { return Err(e); },
        };
        let mut out: Vec<Vec<TaskId>> = Vec::new();
        let ghost mut idx: Seq<int> = Seq::empty();
        let mut k: usize = 0;
        while k < comps.len()
            invariant
                self.wf(),
                k <= comps@.len(),
                forall|i: int| 0 <= i < comps@.len() ==> is_scc(*self, #[trigger] comps@[i]@),
                forall|i: int, j: int| 0 <= i < j < comps@.len()
                    ==> !same_scc(*self, (#[trigger] comps@[i])@[0], (#[trigger] comps@[j])@[0]),
                covers(*self, comps@),
                idx.len() == out@.len(),
                forall|i: int| 0 <= i < idx.len() ==> 0 <= #[trigger] idx[i] < k && out@[i]@ == comps@[idx[i]]@,
                forall|i: int, j: int| 0 <= i < j < idx.len() ==> idx[i] < idx[j],
                forall|i: int| 0 <= i < out@.len() ==> cyclic(*self, (#[trigger] out@[i])@),
                forall|j: int| 0 <= j < k && cyclic(*self, (#[trigger] comps@[j])@)
                    ==> exists|i: int| 0 <= i < idx.len() && idx[i] == j,
            decreases comps@.len() - k,
        {
            let c = &comps[k];
            assert(is_scc(*self, comps@[k as int]@));
            let keep = c.len() > 1 || self.has_dependency(c[0], c[0]);
            let ghost o0 = out@;
            let ghost i0 = idx;
            if keep {
                out.push(c.clone());
                proof {
                    idx = idx.push(k as int);
                    assert(out@[o0.len() as int]@ == comps@[k as int]@);
                    assert forall|i: int| 0 <= i < idx.len() implies 0 <= #[trigger] idx[i] < k + 1 && out@[i]@ == comps@[idx[i]]@ by {
                        if i < i0.len() {
                            assert(out@[i] == o0[i]);
                        }
                    }
                }
            }
            proof {
                assert forall|j: int| 0 <= j < k + 1 && cyclic(*self, (#[trigger] comps@[j])@)
                    implies exists|i: int| 0 <= i < idx.len() && idx[i] == j by {
                    if j == k {
                        assert(idx[idx.len() - 1] == j);
                    } else {
                        let i = choose|i: int| 0 <= i < i0.len() && i0[i] == j;
                        assert(idx[i] == j);
                    }
                }
            }
            k = k + 1;
        }
        proof {
            assert forall|i: int| 0 <= i < out@.len() implies is_scc(*self, #[trigger] out@[i]@) && cyclic(*self, out@[i]@) by {
                assert(out@[i]@ == comps@[idx[i]]@);
            }
            assert forall|i: int, j: int| 0 <= i < j < out@.len()
                implies !same_scc(*self, (#[trigger] out@[i])@[0], (#[trigger] out@[j])@[0]) by {
                assert(out@[i]@ == comps@[idx[i]]@);
                assert(out@[j]@ == comps@[idx[j]]@);
            }
            assert forall|t: TaskId| #[trigger] on_cycle(*self, t)
                <==> exists|i: int| 0 <= i < out@.len() && (#[trigger] out@[i])@.contains(t) by {
                if on_cycle(*self, t) {
                    let w = choose|w: TaskId| #[trigger] self.edge(t, w) && reaches(*self, false, w, t);
                    assert(self.has_task(t));
                    let j = choose|j: int| 0 <= j < comps@.len() && (#[trigger] comps@[j])@.contains(t);
                    lemma_cycle_in_scc(*self, comps@[j]@, t);
                    assert(cyclic(*self, comps@[j]@));
                    let i = choose|i: int| 0 <= i < idx.len() && idx[i] == j;
                    assert(out@[i]@ == comps@[j]@);
                    assert(out@[i]@.contains(t));
                }
                if exists|i: int| 0 <= i < out@.len() && (#[trigger] out@[i])@.contains(t) {
                    let i = choose|i: int| 0 <= i < out@.len() && (#[trigger] out@[i])@.contains(t);
                    assert(out@[i]@ == comps@[idx[i]]@);
                    lemma_cycle_in_scc(*self, out@[i]@, t);
                }
            }
        }
        proof {
            assert(cycle_cover(*self, out@));
        }
        Ok(out)
    }
}


/// The cycles found are empty exactly when the graph is acyclic: for any
/// components that cover the tasks on cycles and each hold a cycle.
pub proof fn lemma_no_cycles_found_iff_acyclic(g: Graph, cs: Seq<Vec<TaskId>>)
    requires
        g.wf(),
        forall|i: int| 0 <= i < cs.len() ==> is_scc(g, #[trigger] cs[i]@) && cyclic(g, cs[i]@),
        cycle_cover(g, cs),
    ensures
        cs.len() == 0 <==> !has_cycle(g),
{
    if has_cycle(g) {
        let u = choose|u: TaskId| #[trigger] on_cycle(g, u);
        assert(exists|i: int| 0 <= i < cs.len() && (#[trigger] cs[i])@.contains(u));
    }
    if cs.len() > 0 {
        let c = cs[0]@;
        assert(is_scc(g, c) && cyclic(g, c));
        assert(c.contains(c[0]));
        lemma_cycle_in_scc(g, c, c[0]);
        assert(on_cycle(g, c[0]));
    }
}

/// In an acyclic graph every strongly connected component is a single task.
pub proof fn lemma_acyclic_components_are_single(g: Graph, c: Seq<TaskId>)
    requires
        g.wf(),
        !has_cycle(g),
        is_scc(g, c),
    ensures
        c.len() == 1,
{
    assert(c.contains(c[0]));
    lemma_cycle_in_scc(g, c, c[0]);
    if c.len() > 1 {
        assert(on_cycle(g, c[0]));
    }
}

} // verus!
