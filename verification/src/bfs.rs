//! Breadth-first search over an implicit finite graph, verified to
//! return exact shortest-path distances.  The lock-opening and
//! perfect-square searches both run on this engine.

use vstd::prelude::*;
use vstd::seq_lib::*;
use vstd::set_lib::*;

verus! {

/// An implicit finite directed graph on the states `0 .. size`.
pub trait Graph: Sized {
    /// The graph value is well formed.
    spec fn wf(&self) -> bool;

    /// Number of states.
    spec fn size(&self) -> nat;

    /// Directed edge relation.
    spec fn edge(&self, u: int, v: int) -> bool;

    /// Every edge stays inside `0 .. size`.
    proof fn edge_in_range(&self, u: int, v: int)
        requires
            self.wf(),
            self.edge(u, v),
        ensures
            0 <= u < self.size(),
            0 <= v < self.size(),
    ;

    /// Number of states, as a machine word.
    fn size_exec(&self) -> (n: usize)
        requires
            self.wf(),
        ensures
            n as nat == self.size(),
    ;

    /// Exactly the successors of `u`.
    fn neighbors(&self, u: usize) -> (r: Vec<usize>)
        requires
            self.wf(),
            (u as nat) < self.size(),
        ensures
            forall|a: int| 0 <= a < r@.len() ==> self.edge(u as int, #[trigger] r@[a] as int),
            forall|v: usize| self.edge(u as int, v as int) ==> r@.contains(v),
    ;
}

/// `p` is a path from `s` to `t`: it starts at `s`, ends at `t`, and
/// each consecutive pair of states is joined by an edge.
pub open spec fn is_path<G: Graph>(g: &G, p: Seq<int>, s: int, t: int) -> bool {
    &&& p.len() >= 1
    &&& p[0] == s
    &&& p.last() == t
    &&& forall|m: int| 0 <= m < p.len() - 1 ==> g.edge(#[trigger] p[m], p[m + 1])
}

/// There is a path of exactly `k` edges from `s` to `t`.
pub open spec fn has_path_of_len<G: Graph>(g: &G, s: int, t: int, k: int) -> bool {
    exists|p: Seq<int>| is_path(g, p, s, t) && p.len() == k + 1
}

proof fn lemma_distinct_bounded_len(q: Seq<usize>, size: int)
    requires
        forall|a: int, b: int| 0 <= a < b < q.len() ==> q[a] != q[b],
        forall|a: int| 0 <= a < q.len() ==> (#[trigger] q[a] as int) < size,
        size >= 0,
    ensures
        q.len() <= size,
{
    broadcast use vstd::set::group_set_axioms;

    let qi = q.map(|_i: int, v: usize| v as int);
    assert(qi.no_duplicates()) by {
        assert forall|i: int, j: int|
            0 <= i < qi.len() && 0 <= j < qi.len() && i != j implies qi[i] != qi[j] by {
            if i < j {
                assert(q[i] != q[j]);
            } else {
                assert(q[j] != q[i]);
            }
        }
    }
    qi.unique_seq_to_set();
    lemma_int_range(0, size);
    assert(qi.to_set().subset_of(set_int_range(0, size))) by {
        assert forall|x: int| qi.to_set().contains(x) implies set_int_range(0, size).contains(
            x,
        ) by {
            let i = choose|i: int| 0 <= i < qi.len() && qi[i] == x;
            assert(q[i] as int == x);
        }
    }
    lemma_len_subset(qi.to_set(), set_int_range(0, size));
}

/// From the standing search state, any path from the start either
/// already gives the target a recorded distance no longer than the
/// path, or passes through an element still waiting in the queue at a
/// distance no longer than the path.
proof fn lemma_bfs_reach<G: Graph>(
    g: &G,
    dist: Seq<usize>,
    queue: Seq<usize>,
    qh: int,
    start: int,
    p: Seq<int>,
    t: int,
)
    requires
        g.wf(),
        g.size() <= usize::MAX,
        dist.len() == g.size(),
        0 <= start < g.size(),
        dist[start] == 0,
        0 <= qh <= queue.len(),
        forall|a: int|
            0 <= a < queue.len() ==> (#[trigger] queue[a] as int) < g.size() && dist[queue[a] as int]
                != usize::MAX,
        forall|v: int|
            0 <= v < g.size() && #[trigger] dist[v] != usize::MAX ==> queue.contains(v as usize),
        forall|a: int, v: int|
            0 <= a < qh && 0 <= v < g.size() && #[trigger] g.edge(queue[a] as int, v) ==> dist[v]
                != usize::MAX && dist[v] <= dist[queue[a] as int] + 1,
        is_path(g, p, start, t),
    ensures
        (0 <= t < g.size() && dist[t] != usize::MAX && dist[t] <= p.len() - 1) || exists|a: int|
            qh <= a < queue.len() && dist[#[trigger] queue[a] as int] <= p.len() - 1,
    decreases p.len(),
{
    if p.len() == 1 {
        assert(t == start);
    } else {
        let q = p.drop_last();
        let u = p[p.len() - 2];
        assert(g.edge(u, t));
        g.edge_in_range(u, t);
        assert(is_path(g, q, start, u)) by {
            assert(q[0] == p[0]);
            assert(q.last() == u);
            assert(forall|m: int| 0 <= m < q.len() - 1 ==> g.edge(#[trigger] q[m], q[m + 1]));
        }
        lemma_bfs_reach(g, dist, queue, qh, start, q, u);
        if 0 <= u < g.size() && dist[u] != usize::MAX && dist[u] <= q.len() - 1 {
            assert((u as usize) as int == u);
            if exists|a: int| 0 <= a < qh && queue[a] == u as usize {
                // u is already fully processed, so its neighbor t is recorded
                let a = choose|a: int| 0 <= a < qh && queue[a] == u as usize;
                assert(queue[a] as int == u);
                assert(g.edge(queue[a] as int, t));
            } else {
                // u is still waiting in the queue
                assert(queue.contains(u as usize));
                let a = choose|a: int| 0 <= a < queue.len() && queue[a] == u as usize;
                assert(qh <= a);
                assert(dist[queue[a] as int] <= p.len() - 1);
            }
        } else {
            let a = choose|a: int|
                qh <= a < queue.len() && dist[#[trigger] queue[a] as int] <= q.len() - 1;
            assert(dist[queue[a] as int] <= p.len() - 1);
        }
    }
}

/// Shortest distance from `start` to `target`, breadth first:
/// `Some(d)` when the shortest path has exactly `d` edges, `None`
/// when no path reaches the target.
pub fn bfs_shortest<G: Graph>(g: &G, start: usize, target: usize) -> (result: Option<usize>)
    requires
        g.wf(),
        (start as nat) < g.size(),
        (target as nat) < g.size(),
        g.size() <= usize::MAX - 1,
    ensures
        match result {
            Some(d) => (d as nat) < g.size() && has_path_of_len(g, start as int, target as int, d as int)
                && forall|k: int| 0 <= k < d ==> !has_path_of_len(g, start as int, target as int, k),
            None => forall|k: int| !has_path_of_len(g, start as int, target as int, k),
        },
{
    let size = g.size_exec();
    let ghost gsize = g.size() as int;
    let mut dist: Vec<usize> = vec![usize::MAX; size];
    dist[start] = 0;
    let mut queue: Vec<usize> = Vec::new();
    queue.push(start);
    let mut qh: usize = 0;

    proof {
        let p0: Seq<int> = seq![start as int];
        assert(is_path(g, p0, start as int, start as int));
        assert(has_path_of_len(g, start as int, start as int, 0));
        assert(queue@[0] == start);
        assert forall|v: int|
            0 <= v < gsize && #[trigger] dist@[v] != usize::MAX implies queue@.contains(
            v as usize,
        ) by {
            assert(v == start as int);
            assert(queue@[0] == start);
        }
    }

    while qh < queue.len()
        invariant
            g.wf(),
            dist@.len() == gsize == g.size(),
            (start as int) < gsize,
            (target as int) < gsize,
            gsize <= usize::MAX - 1,
            qh <= queue@.len(),
            dist@[start as int] == 0,
            forall|a: int|
                0 <= a < queue@.len() ==> (#[trigger] queue@[a] as int) < gsize && dist@[queue@[a] as int]
                    != usize::MAX,
            forall|a: int| 0 <= a < queue@.len() ==> dist@[#[trigger] queue@[a] as int] <= a,
            forall|a: int, b: int| 0 <= a < b < queue@.len() ==> queue@[a] != queue@[b],
            forall|v: int|
                0 <= v < gsize && #[trigger] dist@[v] != usize::MAX ==> queue@.contains(v as usize),
            forall|a: int, b: int|
                0 <= a <= b < queue@.len()
                    ==> dist@[#[trigger] queue@[a] as int] <= dist@[#[trigger] queue@[b] as int],
            qh < queue@.len() ==> forall|a: int|
                qh <= a < queue@.len() ==> dist@[#[trigger] queue@[a] as int] <= dist@[queue@[qh as int] as int]
                    + 1,
            forall|v: int|
                0 <= v < gsize && #[trigger] dist@[v] != usize::MAX ==> has_path_of_len(
                    g,
                    start as int,
                    v,
                    dist@[v] as int,
                ),
            forall|a: int, v: int|
                0 <= a < qh && 0 <= v < gsize && #[trigger] g.edge(queue@[a] as int, v) ==> dist@[v]
                    != usize::MAX && dist@[v] <= dist@[queue@[a] as int] + 1,
            forall|a: int| 0 <= a < qh ==> queue@[a] != target,
        decreases gsize - qh,
    {
        proof {
            lemma_distinct_bounded_len(queue@, gsize);
        }
        let u = queue[qh];
        let du = dist[u];
        if u == target {
            proof {
                assert forall|p: Seq<int>| is_path(g, p, start as int, target as int) implies p.len()
                    - 1 >= du by {
                    lemma_bfs_reach(g, dist@, queue@, qh as int, start as int, p, target as int);
                    if !(dist@[target as int] != usize::MAX && dist@[target as int] <= p.len()
                        - 1) {
                        let a = choose|a: int|
                            qh <= a < queue@.len() && dist@[#[trigger] queue@[a] as int] <= p.len()
                                - 1;
                        assert(dist@[queue@[qh as int] as int] <= dist@[queue@[a] as int]);
                    }
                }
                assert forall|k: int| 0 <= k < du implies !has_path_of_len(
                    g,
                    start as int,
                    target as int,
                    k,
                ) by {
                    if has_path_of_len(g, start as int, target as int, k) {
                        let p = choose|p: Seq<int>|
                            is_path(g, p, start as int, target as int) && p.len() == k + 1;
                        assert(p.len() - 1 >= du);
                    }
                }
            }
            return Some(du);
        }

        let ns = g.neighbors(u);
        let ghost du_int = du as int;
        let mut idx: usize = 0;
        while idx < ns.len()
            invariant
                g.wf(),
                dist@.len() == gsize == g.size(),
                (start as int) < gsize,
                (target as int) < gsize,
                gsize <= usize::MAX - 1,
                qh < queue@.len(),
                u == queue@[qh as int],
                (u as int) < gsize,
                du == dist@[u as int],
                du_int == du as int,
                du != usize::MAX,
                (du as int) + 1 <= gsize,
                dist@[start as int] == 0,
                idx <= ns@.len(),
                forall|a: int|
                    0 <= a < ns@.len() ==> g.edge(u as int, #[trigger] ns@[a] as int),
                forall|v: usize| g.edge(u as int, v as int) ==> ns@.contains(v),
                forall|a: int|
                    0 <= a < queue@.len() ==> (#[trigger] queue@[a] as int) < gsize && dist@[queue@[a] as int]
                        != usize::MAX,
                forall|a: int| 0 <= a < queue@.len() ==> dist@[#[trigger] queue@[a] as int] <= a,
                forall|a: int, b: int| 0 <= a < b < queue@.len() ==> queue@[a] != queue@[b],
                forall|v: int|
                    0 <= v < gsize && #[trigger] dist@[v] != usize::MAX ==> queue@.contains(
                        v as usize,
                    ),
                forall|a: int, b: int|
                    0 <= a <= b < queue@.len()
                        ==> dist@[#[trigger] queue@[a] as int] <= dist@[#[trigger] queue@[b] as int],
                forall|a: int|
                    qh <= a < queue@.len() ==> dist@[#[trigger] queue@[a] as int] <= du_int + 1,
                forall|v: int|
                    0 <= v < gsize && #[trigger] dist@[v] != usize::MAX ==> has_path_of_len(
                        g,
                        start as int,
                        v,
                        dist@[v] as int,
                    ),
                forall|a: int, v: int|
                    0 <= a < qh && 0 <= v < gsize && #[trigger] g.edge(queue@[a] as int, v) ==>
                        dist@[v] != usize::MAX && dist@[v] <= dist@[queue@[a] as int] + 1,
                forall|b: int|
                    0 <= b < idx ==> dist@[#[trigger] ns@[b] as int] != usize::MAX && dist@[ns@[b] as int]
                        <= du_int + 1,
                forall|a: int| 0 <= a < qh ==> queue@[a] != target,
            decreases ns@.len() - idx,
        {
            let v = ns[idx];
            proof {
                assert(g.edge(u as int, v as int));
                g.edge_in_range(u as int, v as int);
            }
            if dist[v] == usize::MAX {
                proof {
                    lemma_distinct_bounded_len(queue@, gsize);
                    let pu = choose|p: Seq<int>|
                        is_path(g, p, start as int, u as int) && p.len() == du_int + 1;
                    let pv = pu.push(v as int);
                    assert(is_path(g, pv, start as int, v as int)) by {
                        assert(pv[0] == pu[0]);
                        assert(pv.last() == v as int);
                        assert forall|m: int| 0 <= m < pv.len() - 1 implies g.edge(
                            #[trigger] pv[m],
                            pv[m + 1],
                        ) by {
                            if m < pu.len() - 1 {
                                assert(pv[m] == pu[m] && pv[m + 1] == pu[m + 1]);
                            } else {
                                assert(pv[m] == pu.last() && pv[m + 1] == v as int);
                            }
                        }
                    }
                    assert(has_path_of_len(g, start as int, v as int, du_int + 1));
                }
                let ghost old_dist = dist@;
                let ghost old_queue = queue@;
                dist[v] = du + 1;
                queue.push(v);
                proof {
                    assert(dist@ =~= old_dist.update(v as int, (du + 1) as usize));
                    assert(queue@ =~= old_queue.push(v));
                    let nl = queue@.len();
                    assert(queue@[nl - 1] == v);
                    // the fresh state was not in the queue before
                    assert forall|a: int| 0 <= a < old_queue.len() implies old_queue[a] != v by {
                        assert(old_dist[old_queue[a] as int] != usize::MAX);
                    }
                    // every queue entry keeps its recorded distance
                    assert forall|a: int| 0 <= a < nl implies dist@[#[trigger] queue@[a] as int]
                        != usize::MAX && (queue@[a] as int) < gsize by {
                        if a < nl - 1 {
                            assert(queue@[a] == old_queue[a]);
                        }
                    }
                    assert forall|w: int|
                        0 <= w < gsize && #[trigger] dist@[w] != usize::MAX implies queue@.contains(
                        w as usize,
                    ) by {
                        if w == v as int {
                            assert(queue@[nl - 1] == v);
                        } else {
                            assert(old_dist[w] == dist@[w]);
                            assert(old_queue.contains(w as usize));
                            let a = choose|a: int|
                                0 <= a < old_queue.len() && old_queue[a] == w as usize;
                            assert(queue@[a] == w as usize);
                        }
                    }
                    // distances along the queue stay sorted
                    assert forall|a: int, b: int|
                        0 <= a <= b < nl implies dist@[#[trigger] queue@[a] as int]
                        <= dist@[#[trigger] queue@[b] as int] by {
                        if b == nl - 1 && a < b {
                            if a < qh {
                                assert(old_dist[old_queue[a] as int] <= old_dist[old_queue[qh as int] as int]);
                            } else {
                                assert(old_dist[old_queue[a] as int] <= du_int + 1);
                            }
                        }
                    }
                    assert forall|b: int|
                        0 <= b < idx + 1 implies dist@[#[trigger] ns@[b] as int] != usize::MAX
                        && dist@[ns@[b] as int] <= du_int + 1 by {
                        if b < idx {
                            assert(g.edge(u as int, ns@[b] as int));
                            g.edge_in_range(u as int, ns@[b] as int);
                            assert(old_dist[ns@[b] as int] != usize::MAX);
                            assert(old_dist[v as int] == usize::MAX);
                            assert(ns@[b] as int != v as int);
                            assert(dist@[ns@[b] as int] == old_dist[ns@[b] as int]);
                        } else {
                            assert(ns@[b] == v);
                        }
                    }
                }
            } else {
                proof {
                    assert(queue@.contains(v));
                    let a = choose|a: int| 0 <= a < queue@.len() && queue@[a] == v;
                    if a < qh {
                        assert(dist@[queue@[a] as int] <= dist@[queue@[qh as int] as int]);
                    }
                }
            }
            idx = idx + 1;
        }
        proof {
            assert forall|v: int|
                0 <= v < gsize && #[trigger] g.edge(u as int, v) implies dist@[v] != usize::MAX
                && dist@[v] <= du_int + 1 by {
                assert((v as usize) as int == v);
                assert(g.edge(u as int, (v as usize) as int));
                assert(ns@.contains(v as usize));
                let b = choose|b: int| 0 <= b < ns@.len() && ns@[b] == v as usize;
                assert(dist@[ns@[b] as int] != usize::MAX && dist@[ns@[b] as int] <= du_int + 1);
            }
        }
        qh = qh + 1;
        proof {
            if qh < queue@.len() {
                assert(dist@[queue@[qh as int] as int] >= du_int);
            }
        }
    }

    proof {
        assert(dist@[target as int] == usize::MAX) by {
            if dist@[target as int] != usize::MAX {
                assert(queue@.contains(target));
                let a = choose|a: int| 0 <= a < queue@.len() && queue@[a] == target;
            }
        }
        assert forall|k: int| !has_path_of_len(g, start as int, target as int, k) by {
            if has_path_of_len(g, start as int, target as int, k) {
                let p = choose|p: Seq<int>|
                    is_path(g, p, start as int, target as int) && p.len() == k + 1;
                lemma_bfs_reach(g, dist@, queue@, qh as int, start as int, p, target as int);
            }
        }
    }
    None
}

} // verus!
