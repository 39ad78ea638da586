//! Breadth-first search over directed graphs from a set of sources.

use vstd::prelude::*;
use crate::digraph::Digraph;
use std::collections::VecDeque;

verus! {

/// `g` has an edge `a -> b`.
pub open spec fn has_edge(g: Seq<Seq<usize>>, a: usize, b: usize) -> bool {
    (a as int) < g.len() && g[a as int].contains(b)
}

/// `p` is a walk in `g` that starts at one of `sources`.
pub open spec fn is_walk_from(g: Seq<Seq<usize>>, sources: Seq<usize>, p: Seq<usize>) -> bool {
    &&& p.len() > 0
    &&& sources.contains(p[0])
    &&& forall|i: int| 0 <= i < p.len() - 1 ==> #[trigger] has_edge(g, p[i], p[i + 1])
}

/// `v` can be reached from one of `sources` along at most `d` edges of `g`.
pub open spec fn reaches(g: Seq<Seq<usize>>, sources: Seq<usize>, v: usize, d: nat) -> bool {
    exists|p: Seq<usize>| #[trigger] is_walk_from(g, sources, p) && p.len() <= d + 1 && p[p.len() - 1] == v
}

/// The fewest edges from one of `sources` to `v` is `d`.
pub open spec fn is_distance(g: Seq<Seq<usize>>, sources: Seq<usize>, v: usize, d: nat) -> bool {
    reaches(g, sources, v, d) && (d == 0 || !reaches(g, sources, v, (d - 1) as nat))
}

/// Every vertex reachable along fewer than `level` edges is marked, no farther than it can be reached.
spec fn settled_below(
    g: Seq<Seq<usize>>,
    sources: Seq<usize>,
    marked: Seq<bool>,
    dist: Seq<i32>,
    level: int,
) -> bool {
    forall|x: usize, d: nat|
        (x as int) < g.len() && d < level && #[trigger] reaches(g, sources, x, d) ==> marked[x as int]
            && dist[x as int] <= d
}

/// Every edge out of `u` leads to a marked vertex at most one step farther than `u`.
spec fn closed_at(g: Seq<Seq<usize>>, marked: Seq<bool>, dist: Seq<i32>, u: int) -> bool {
    forall|k: int|
        0 <= k < g[u].len() ==> marked[#[trigger] g[u][k] as int] && dist[g[u][k] as int] <= dist[u]
            + 1
}

/// What a breadth-first search found: which vertices it reached, how far each is
/// from the nearest source, and the vertex each was reached from.
pub struct BfsResult {
    marked: Vec<bool>,
    edge_to: Vec<usize>,
    dist_to: Vec<i32>,
}

impl BfsResult {
    /// The number of vertices of the searched graph.
    pub closed spec fn vertex_count(&self) -> nat {
        self.marked@.len()
    }

    /// The search reached `v`.
    pub closed spec fn is_marked(&self, v: int) -> bool {
        self.marked@[v]
    }

    /// The number of edges from the nearest source to `v`.
    pub closed spec fn dist(&self, v: int) -> int {
        self.dist_to@[v] as int
    }

    /// The vertex that the search reached `v` from.
    pub closed spec fn parent(&self, v: int) -> int {
        self.edge_to@[v] as int
    }

    /// Each reached vertex away from the sources was reached from a reached vertex one step nearer.
    pub closed spec fn wf(&self) -> bool {
        &&& self.edge_to@.len() == self.marked@.len()
        &&& self.dist_to@.len() == self.marked@.len()
        &&& forall|v: int|
            0 <= v < self.marked@.len() && #[trigger] self.marked@[v] ==> {
                &&& self.dist_to@[v] >= 0
                &&& self.dist_to@[v] > 0 ==> {
                    &&& self.edge_to@[v] < self.marked@.len()
                    &&& self.marked@[self.edge_to@[v] as int]
                    &&& self.dist_to@[self.edge_to@[v] as int] == self.dist_to@[v] - 1
                }
            }
    }

    /// The number of edges from the nearest source to `v`, or `None` if `v` cannot be reached.
    pub fn dist_to(&self, v: usize) -> (r: Option<i32>)
        requires
            self.wf(),
            v < self.vertex_count(),
        ensures
            r == if self.is_marked(v as int) {
                Some(self.dist(v as int) as i32)
            } else {
                None::<i32>
            },
    {
        if self.marked[v] {
            Some(self.dist_to[v])
        } else {
            None
        }
    }

    /// A shortest path from a source to `v`, or `None` if `v` cannot be reached.
    pub fn path_to(&self, v: usize) -> (r: Option<Vec<usize>>)
        requires
            self.wf(),
            v < self.vertex_count(),
        ensures
            r is Some <==> self.is_marked(v as int),
            r matches Some(p) ==> {
                &&& p@.len() == self.dist(v as int) + 1
                &&& p@[p@.len() - 1] == v
                &&& forall|j: int|
                    0 <= j < p@.len() ==> self.is_marked(#[trigger] p@[j] as int) && self.dist(
                        p@[j] as int,
                    ) == j
                &&& forall|j: int| 0 < j < p@.len() ==> self.parent(#[trigger] p@[j] as int) == p@[j - 1]
            },
    {
        if !self.marked[v] {
            return None;
        }
        let d = self.dist_to[v] as usize;
        let mut path: Vec<usize> = vec![0usize; d + 1];
        let mut x = v;
        let mut k = d;
        while k > 0
            invariant
                self.wf(),
                v < self.vertex_count(),
                k <= d,
                d == self.dist(v as int),
                path@.len() == d + 1,
                x < self.vertex_count(),
                self.is_marked(x as int),
                self.dist(x as int) == k,
                k == d ==> x == v,
                k < d ==> path@[d as int] == v,
                k < d ==> self.parent(path@[k + 1] as int) == x,
                forall|j: int|
                    k < j <= d ==> self.is_marked(#[trigger] path@[j] as int) && self.dist(
                        path@[j] as int,
                    ) == j,
                forall|j: int| k < j < d ==> self.parent(#[trigger] path@[j + 1] as int) == path@[j],
            decreases k,
        {
            path.set(k, x);
            x = self.edge_to[x];
            k -= 1;
        }
        let ghost filled = path@;
        path.set(0, x);
        proof {
            assert forall|j: int| 0 <= j < path@.len() implies self.is_marked(#[trigger] path@[j] as int) && self.dist(
                path@[j] as int,
            ) == j by {
                if j > 0 {
                    assert(path@[j] == filled[j]);
                }
            }
            assert forall|j: int| 0 < j < path@.len() implies self.parent(#[trigger] path@[j] as int) == path@[j - 1] by {
                assert(path@[j] == filled[j]);
                if j > 1 {
                    assert(filled[(j - 1) + 1] == filled[j]);
                    assert(path@[j - 1] == filled[j - 1]);
                }
            }
        }
        Some(path)
    }
}

proof fn lemma_reaches_unfold(g: Seq<Seq<usize>>, sources: Seq<usize>, x: usize, d: nat)
    requires
        d > 0,
        reaches(g, sources, x, d),
        !reaches(g, sources, x, (d - 1) as nat),
    ensures
        exists|u: usize|
            (u as int) < g.len() && #[trigger] reaches(g, sources, u, (d - 1) as nat) && g[u as int].contains(x),
{
    let p = choose|p: Seq<usize>| #[trigger] is_walk_from(g, sources, p) && p.len() <= d + 1 && p[p.len() - 1] == x;
    assert(p.len() >= 2);
    let q = p.drop_last();
    assert(q[0] == p[0]);
    assert forall|i: int| 0 <= i < q.len() - 1 implies #[trigger] has_edge(g, q[i], q[i + 1]) by {
        assert(q[i] == p[i] && q[i + 1] == p[i + 1]);
        assert(has_edge(g, p[i], p[i + 1]));
    }
    assert(is_walk_from(g, sources, q));
    let u = q[q.len() - 1];
    assert(has_edge(g, p[p.len() - 2], p[(p.len() - 2) + 1]));
    assert(reaches(g, sources, u, (d - 1) as nat));
}

/// Reaching `u` within `d` edges and an edge `u -> w` reach `w` within `d + 1`.
proof fn lemma_reaches_step(g: Seq<Seq<usize>>, sources: Seq<usize>, u: usize, w: usize, d: nat)
    requires
        (u as int) < g.len(),
        reaches(g, sources, u, d),
        g[u as int].contains(w),
    ensures
        reaches(g, sources, w, d + 1),
{
    let p = choose|p: Seq<usize>| #[trigger] is_walk_from(g, sources, p) && p.len() <= d + 1 && p[p.len() - 1] == u;
    let q = p.push(w);
    assert(is_walk_from(g, sources, p));
    assert(q.len() > 0);
    assert(sources.contains(q[0]));
    assert(q[0] == p[0]);
    assert forall|i: int| 0 <= i < q.len() - 1 implies #[trigger] has_edge(g, q[i], q[i + 1]) by {
        assert(q[i] == p[i]);
        if i < p.len() - 1 {
            assert(q[i + 1] == p[i + 1]);
            assert(has_edge(g, p[i], p[i + 1]));
        } else {
            assert(q[i + 1] == w);
        }
    }
    assert(is_walk_from(g, sources, q));
}

/// The sources are exactly what is reached along no edge.
proof fn lemma_reaches_zero(g: Seq<Seq<usize>>, sources: Seq<usize>, x: usize)
    ensures
        reaches(g, sources, x, 0) <==> sources.contains(x),
{
    if sources.contains(x) {
        assert(is_walk_from(g, sources, seq![x]));
    }
    if reaches(g, sources, x, 0) {
        let p = choose|p: Seq<usize>| #[trigger] is_walk_from(g, sources, p) && p.len() <= 1 && p[p.len() - 1] == x;
    }
}

/// Reaching a vertex within `a` edges reaches it within any `b >= a`.
pub proof fn lemma_reaches_monotone(g: Seq<Seq<usize>>, sources: Seq<usize>, x: usize, a: nat, b: nat)
    requires
        a <= b,
        reaches(g, sources, x, a),
    ensures
        reaches(g, sources, x, b),
{
    let p = choose|p: Seq<usize>| #[trigger] is_walk_from(g, sources, p) && p.len() <= a + 1 && p[p.len() - 1] == x;
    assert(is_walk_from(g, sources, p) && p.len() <= b + 1 && p[p.len() - 1] == x);
}

/// Closure of every marked vertex below `level`, together with everything below
/// `level` being settled, settles everything up to `level`.
proof fn lemma_settle_next(
    g: Seq<Seq<usize>>,
    sources: Seq<usize>,
    marked: Seq<bool>,
    dist: Seq<i32>,
    level: int,
)
    requires
        level >= 0,
        marked.len() == g.len(),
        dist.len() == g.len(),
        settled_below(g, sources, marked, dist, level),
        forall|k: int| 0 <= k < sources.len() ==> marked[#[trigger] sources[k] as int] && dist[sources[k] as int] == 0,
        forall|u: int| 0 <= u < g.len() && #[trigger] marked[u] && dist[u] < level ==> closed_at(g, marked, dist, u),
    ensures
        settled_below(g, sources, marked, dist, level + 1),
{
    assert forall|x: usize, d: nat|
        (x as int) < g.len() && d < level + 1 && #[trigger] reaches(g, sources, x, d) implies marked[x as int]
            && dist[x as int] <= d by {
        if d == level {
            if d == 0 {
                lemma_reaches_zero(g, sources, x);
                let k = choose|k: int| 0 <= k < sources.len() && sources[k] == x;
            } else if reaches(g, sources, x, (d - 1) as nat) {
            } else {
                lemma_reaches_unfold(g, sources, x, d);
                let u = choose|u: usize|
                    (u as int) < g.len() && #[trigger] reaches(g, sources, u, (d - 1) as nat) && g[u as int].contains(x);
                let k = choose|k: int| 0 <= k < g[u as int].len() && g[u as int][k] == x;
                assert(marked[u as int] && dist[u as int] <= d - 1);
                assert(closed_at(g, marked, dist, u as int));
            }
        }
    }
}

/// When every marked vertex is closed, everything reachable is marked.
proof fn lemma_settle_all(
    g: Seq<Seq<usize>>,
    sources: Seq<usize>,
    marked: Seq<bool>,
    dist: Seq<i32>,
    level: nat,
)
    requires
        marked.len() == g.len(),
        dist.len() == g.len(),
        forall|k: int| 0 <= k < sources.len() ==> marked[#[trigger] sources[k] as int] && dist[sources[k] as int] == 0,
        forall|u: int| 0 <= u < g.len() && #[trigger] marked[u] ==> closed_at(g, marked, dist, u),
    ensures
        settled_below(g, sources, marked, dist, level as int),
    decreases level,
{
    if level > 0 {
        lemma_settle_all(g, sources, marked, dist, (level - 1) as nat);
        lemma_settle_next(g, sources, marked, dist, level - 1);
    }
}

/// Breadth-first search of `g` from all of `sources` at once.
#[verifier::rlimit(100)]
pub fn search(g: &Digraph, sources: Vec<usize>) -> (r: BfsResult)
    requires
        g.wf(),
        g@.len() <= i32::MAX,
        forall|k: int| 0 <= k < sources@.len() ==> #[trigger] sources@[k] < g@.len(),
    ensures
        r.wf(),
        r.vertex_count() == g@.len(),
        forall|v: usize|
            (v as int) < g@.len() && #[trigger] r.is_marked(v as int) ==> 0 <= r.dist(v as int) < g@.len() && is_distance(
                g@,
                sources@,
                v,
                r.dist(v as int) as nat,
            ) && (r.dist(v as int) > 0 ==> g@[r.parent(v as int)].contains(v)),
        forall|v: usize, d: nat|
            (v as int) < g@.len() && !r.is_marked(v as int) ==> !#[trigger] reaches(g@, sources@, v, d),
{
    let ghost gv = g@;
    let ghost sv = sources@;
    let n = g.vertices();
    let mut marked: Vec<bool> = vec![false; n];
    let mut edge_to: Vec<usize> = vec![usize::MAX; n];
    let mut dist_to: Vec<i32> = vec![0i32; n];
    let mut q: VecDeque<usize> = VecDeque::new();
    let ghost mut seen: Set<int> = Set::empty();
    let mut idx: usize = 0;
    while idx < sources.len()
        invariant
            gv == g@,
            sv == sources@,
            n == gv.len(),
            n <= i32::MAX,
            idx <= sv.len(),
            forall|k: int| 0 <= k < sv.len() ==> #[trigger] sv[k] < n,
            marked@.len() == n,
            edge_to@.len() == n,
            dist_to@.len() == n,
            seen.finite(),
            forall|x: int| #[trigger] seen.contains(x) <==> 0 <= x < n && marked@[x],
            forall|x: int| 0 <= x < n && #[trigger] marked@[x] ==> dist_to@[x] == 0 && sv.subrange(0, idx as int).contains(x as usize),
            forall|k: int| 0 <= k < idx ==> marked@[#[trigger] sv[k] as int],
            forall|i: int| 0 <= i < q@.len() ==> #[trigger] q@[i] < n && marked@[q@[i] as int],
            forall|x: int| 0 <= x < n && #[trigger] marked@[x] ==> q@.contains(x as usize),
        decreases sv.len() - idx,
    {
        let v = sources[idx];
        if !marked[v] {
            proof {
                seen = seen.insert(v as int);
            }
        }
        let ghost old_q = q@;
        let ghost old_marked = marked@;
        marked.set(v, true);
        dist_to.set(v, 0);
        q.push_back(v);
        proof {
            assert forall|x: int| 0 <= x < n && #[trigger] marked@[x] implies dist_to@[x] == 0 && sv.subrange(0, idx + 1).contains(x as usize) by {
                if x == v as int {
                    assert(sv.subrange(0, idx + 1)[idx as int] == v);
                } else {
                    let k = choose|k: int| 0 <= k < idx && sv.subrange(0, idx as int)[k] == x as usize;
                    assert(sv.subrange(0, idx + 1)[k] == x as usize);
                }
            }
            assert forall|x: int| 0 <= x < n && #[trigger] marked@[x] implies q@.contains(x as usize) by {
                if x == v as int {
                    assert(q@[q@.len() - 1] == v);
                } else {
                    assert(old_marked[x]);
                    assert(old_q.contains(x as usize));
                    let i = choose|i: int| 0 <= i < old_q.len() && old_q[i] == x as usize;
                    assert(q@[i] == x as usize);
                }
            }
        }
        idx += 1;
    }
    proof {
        assert(sv.subrange(0, sv.len() as int) =~= sv);
        assert forall|x: int| 0 <= x < n && #[trigger] marked@[x] implies reaches(gv, sv, x as usize, dist_to@[x] as nat)
            && 0 <= dist_to@[x] < seen.len() by {
            assert(sv.subrange(0, sv.len() as int).contains(x as usize));
            let k = choose|k: int| 0 <= k < sv.len() && sv.subrange(0, sv.len() as int)[k] == x as usize;
            assert(sv[k] == x as usize);
            lemma_reaches_zero(gv, sv, x as usize);
            assert(seen.contains(x));
            assert(seen.remove(x).len() + 1 == seen.len());
        }
        assert(seen.subset_of(vstd::set_lib::set_int_range(0, n as int)));
        vstd::set_lib::lemma_int_range(0, n as int);
        vstd::set_lib::lemma_len_subset(seen, vstd::set_lib::set_int_range(0, n as int));
    }
    while q.len() > 0
        invariant
            gv == g@,
            sv == sources@,
            g.wf(),
            n == gv.len(),
            n <= i32::MAX,
            forall|k: int| 0 <= k < sv.len() ==> #[trigger] sv[k] < n,
            marked@.len() == n,
            edge_to@.len() == n,
            dist_to@.len() == n,
            seen.finite(),
            seen.len() <= n,
            forall|x: int| #[trigger] seen.contains(x) <==> 0 <= x < n && marked@[x],
            forall|k: int| 0 <= k < sv.len() ==> marked@[#[trigger] sv[k] as int] && dist_to@[sv[k] as int] == 0,
            forall|i: int| 0 <= i < q@.len() ==> #[trigger] q@[i] < n && marked@[q@[i] as int],
            forall|i: int, j: int| 0 <= i < j < q@.len() ==> dist_to@[#[trigger] q@[i] as int] <= dist_to@[#[trigger] q@[j] as int],
            q@.len() > 0 ==> forall|i: int| 0 <= i < q@.len() ==> dist_to@[#[trigger] q@[i] as int] <= dist_to@[q@[0] as int] + 1,
            forall|x: int| 0 <= x < n && #[trigger] marked@[x] ==> {
                &&& 0 <= dist_to@[x] < seen.len()
                &&& reaches(gv, sv, x as usize, dist_to@[x] as nat)
                &&& forall|d: nat| d < dist_to@[x] ==> !#[trigger] reaches(gv, sv, x as usize, d)
                &&& dist_to@[x] > 0 ==> {
                    &&& edge_to@[x] < n
                    &&& marked@[edge_to@[x] as int]
                    &&& dist_to@[edge_to@[x] as int] == dist_to@[x] - 1
                    &&& gv[edge_to@[x] as int].contains(x as usize)
                }
            },
            forall|u: int| 0 <= u < n && #[trigger] marked@[u] && !q@.contains(u as usize) ==> closed_at(gv, marked@, dist_to@, u),
            q@.len() > 0 ==> settled_below(gv, sv, marked@, dist_to@, dist_to@[q@[0] as int] as int),
        decreases n - seen.len(), q@.len(),
    {
        let ghost q_before = q@;
        let v = match q.pop_front() {
            Some(v) => v,
            None => {
                return BfsResult { marked, edge_to, dist_to };
            },
        };
        let ghost level = dist_to@[v as int] as int;
        let ghost seen0 = seen;
        let ghost q1_len = q@.len();
        proof {
            vstd::set_lib::lemma_int_range(0, n as int);
            assert(seen.subset_of(vstd::set_lib::set_int_range(0, n as int)));
            vstd::set_lib::lemma_len_subset(seen, vstd::set_lib::set_int_range(0, n as int));
            assert(marked@[q_before[0] as int]);
            assert forall|u: int| 0 <= u < n && #[trigger] marked@[u] && !q@.contains(u as usize) && u != v implies closed_at(gv, marked@, dist_to@, u) by {
                if q_before.contains(u as usize) {
                    let i = choose|i: int| 0 <= i < q_before.len() && q_before[i] == u as usize;
                    assert(i != 0);
                    assert(q@[i - 1] == u as usize);
                }
            }
            assert forall|u: int| 0 <= u < n && #[trigger] marked@[u] && dist_to@[u] < level implies closed_at(gv, marked@, dist_to@, u) by {
                if q_before.contains(u as usize) {
                    let i = choose|i: int| 0 <= i < q_before.len() && q_before[i] == u as usize;
                    if i > 0 {
                        assert(dist_to@[q_before[0] as int] <= dist_to@[q_before[i] as int]);
                    }
                }
            }
            lemma_settle_next(gv, sv, marked@, dist_to@, level);
            assert forall|i: int| 0 <= i < q@.len() implies level <= dist_to@[#[trigger] q@[i] as int] <= level + 1 by {
                assert(q@[i] == q_before[i + 1]);
                assert(dist_to@[q_before[0] as int] <= dist_to@[q_before[i + 1] as int]);
            }
        }
        let adj = g.adj(v);
        let mut j: usize = 0;
        while j < adj.len()
            invariant
                gv == g@,
                sv == sources@,
                g.wf(),
                n == gv.len(),
                n <= i32::MAX,
                v < n,
                adj@ == gv[v as int],
                j <= adj@.len(),
                level == dist_to@[v as int],
                marked@[v as int],
                0 <= level < seen.len() <= n,
                forall|k: int| 0 <= k < sv.len() ==> #[trigger] sv[k] < n,
                marked@.len() == n,
                edge_to@.len() == n,
                dist_to@.len() == n,
                seen.finite(),
                seen.subset_of(vstd::set_lib::set_int_range(0, n as int)),
                forall|x: int| #[trigger] seen.contains(x) <==> 0 <= x < n && marked@[x],
                forall|k: int| 0 <= k < sv.len() ==> marked@[#[trigger] sv[k] as int] && dist_to@[sv[k] as int] == 0,
                forall|i: int| 0 <= i < q@.len() ==> #[trigger] q@[i] < n && marked@[q@[i] as int],
                forall|i: int, j2: int| 0 <= i < j2 < q@.len() ==> dist_to@[#[trigger] q@[i] as int] <= dist_to@[#[trigger] q@[j2] as int],
                forall|i: int| 0 <= i < q@.len() ==> level <= dist_to@[#[trigger] q@[i] as int] <= level + 1,
                forall|x: int| 0 <= x < n && #[trigger] marked@[x] ==> {
                    &&& 0 <= dist_to@[x] < seen.len()
                    &&& reaches(gv, sv, x as usize, dist_to@[x] as nat)
                    &&& forall|d: nat| d < dist_to@[x] ==> !#[trigger] reaches(gv, sv, x as usize, d)
                    &&& dist_to@[x] > 0 ==> {
                        &&& edge_to@[x] < n
                        &&& marked@[edge_to@[x] as int]
                        &&& dist_to@[edge_to@[x] as int] == dist_to@[x] - 1
                        &&& gv[edge_to@[x] as int].contains(x as usize)
                    }
                },
                forall|u: int| 0 <= u < n && #[trigger] marked@[u] && !q@.contains(u as usize) && u != v ==> closed_at(gv, marked@, dist_to@, u),
                forall|k: int| 0 <= k < j ==> marked@[#[trigger] gv[v as int][k] as int] && dist_to@[gv[v as int][k] as int] <= level + 1,
                settled_below(gv, sv, marked@, dist_to@, level + 1),
                seen0.len() <= seen.len(),
                seen.len() == seen0.len() ==> q@.len() == q1_len,
                q1_len < q_before.len(),
            decreases adj@.len() - j,
        {
            let w = adj[j];
            proof {
                assert(gv[v as int][j as int] < n);
                assert(gv[v as int].contains(w));
                assert(reaches(gv, sv, v, level as nat));
                lemma_reaches_step(gv, sv, v, w, level as nat);
                assert(reaches(gv, sv, w, (level + 1) as nat));
            }
            if !marked[w] {
                let ghost old_marked = marked@;
                let ghost old_dist = dist_to@;
                let ghost old_q = q@;
                proof {
                    assert(!seen.contains(w as int));
                    vstd::set_lib::lemma_int_range(0, n as int);
                    assert(seen.insert(w as int).subset_of(vstd::set_lib::set_int_range(0, n as int)));
                    vstd::set_lib::lemma_len_subset(seen.insert(w as int), vstd::set_lib::set_int_range(0, n as int));
                    seen = seen.insert(w as int);
                }
                edge_to.set(w, v);
                dist_to.set(w, dist_to[v] + 1);
                marked.set(w, true);
                q.push_back(w);
                proof {
                    assert forall|x: int| 0 <= x < n && #[trigger] marked@[x] implies {
                        &&& 0 <= dist_to@[x] < seen.len()
                        &&& reaches(gv, sv, x as usize, dist_to@[x] as nat)
                        &&& forall|d: nat| d < dist_to@[x] ==> !#[trigger] reaches(gv, sv, x as usize, d)
                        &&& dist_to@[x] > 0 ==> {
                            &&& edge_to@[x] < n
                            &&& marked@[edge_to@[x] as int]
                            &&& dist_to@[edge_to@[x] as int] == dist_to@[x] - 1
                            &&& gv[edge_to@[x] as int].contains(x as usize)
                        }
                    } by {
                        if x == w as int {
                            assert forall|d: nat| d < dist_to@[x] implies !#[trigger] reaches(gv, sv, x as usize, d) by {
                                if reaches(gv, sv, x as usize, d) {
                                    assert(old_marked[x]);
                                }
                            }
                        } else {
                            assert(old_marked[x]);
                        }
                    }
                    assert forall|u: int| 0 <= u < n && #[trigger] marked@[u] && !q@.contains(u as usize) && u != v implies closed_at(gv, marked@, dist_to@, u) by {
                        assert(u != w as int) by {
                            assert(q@[q@.len() - 1] == w);
                        }
                        assert(!old_q.contains(u as usize)) by {
                            if old_q.contains(u as usize) {
                                let i = choose|i: int| 0 <= i < old_q.len() && old_q[i] == u as usize;
                                assert(q@[i] == u as usize);
                            }
                        }
                        assert(closed_at(gv, old_marked, old_dist, u));
                        assert forall|k: int| 0 <= k < gv[u].len() implies marked@[#[trigger] gv[u][k] as int] && dist_to@[gv[u][k] as int] <= dist_to@[u] + 1 by {
                            assert(old_marked[gv[u][k] as int]);
                        }
                    }
                    assert forall|x: usize, d: nat|
                        (x as int) < gv.len() && d < level + 1 && #[trigger] reaches(gv, sv, x, d) implies marked@[x as int]
                            && dist_to@[x as int] <= d by {
                        assert(old_marked[x as int]);
                    }
                }
            }
            j += 1;
        }
        proof {
            assert(closed_at(gv, marked@, dist_to@, v as int));
        }
    }
    proof {
        assert forall|x: int| 0 <= x < n && #[trigger] marked@[x] implies dist_to@[x] < n by {
            vstd::set_lib::lemma_int_range(0, n as int);
            assert(seen.subset_of(vstd::set_lib::set_int_range(0, n as int)));
            vstd::set_lib::lemma_len_subset(seen, vstd::set_lib::set_int_range(0, n as int));
        }
        assert forall|u: int| 0 <= u < n && #[trigger] marked@[u] implies closed_at(gv, marked@, dist_to@, u) by {
            assert(!q@.contains(u as usize));
        }
        assert forall|v: usize, d: nat|
            (v as int) < gv.len() && !marked@[v as int] implies !#[trigger] reaches(gv, sv, v, d) by {
            lemma_settle_all(gv, sv, marked@, dist_to@, d + 1);
        }
    }
    BfsResult { marked, edge_to, dist_to }
}

} // verus!
