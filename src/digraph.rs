//! Directed graphs over the vertices `0..n`, kept as adjacency lists.

use vstd::prelude::*;

verus! {

/// Every edge of the adjacency lists `g` ends at a vertex of `g`.
pub open spec fn edges_in_range(g: Seq<Seq<usize>>) -> bool {
    forall|a: int, k: int| 0 <= a < g.len() && 0 <= k < g[a].len() ==> #[trigger] g[a][k] < g.len()
}

/// A directed graph.
pub struct Digraph {
    e: usize,
    adj: Vec<Vec<usize>>,
}

impl View for Digraph {
    /// The adjacency list of each vertex, edges in the order they were added.
    type V = Seq<Seq<usize>>;

    closed spec fn view(&self) -> Seq<Seq<usize>> {
        Seq::new(self.adj@.len(), |i: int| self.adj@[i]@)
    }
}

impl Digraph {
    /// The number of edges added so far.
    pub closed spec fn edge_count(&self) -> nat {
        self.e as nat
    }

    /// Well-formed: every edge ends at a vertex of the graph.
    pub open spec fn wf(&self) -> bool {
        edges_in_range(self@)
    }

    /// A graph with `v` vertices and no edges.
    pub fn new(v: usize) -> (r: Digraph)
        ensures
            r@ == Seq::new(v as nat, |i: int| Seq::<usize>::empty()),
            r.edge_count() == 0,
            r.wf(),
    {
        let mut adj: Vec<Vec<usize>> = Vec::with_capacity(v);
        let mut i: usize = 0;
        while i < v
            invariant
                i <= v,
                adj@.len() == i,
                forall|k: int| 0 <= k < i ==> (#[trigger] adj@[k])@.len() == 0,
            decreases v - i,
        {
            adj.push(Vec::new());
            i += 1;
        }
        let r = Digraph { e: 0, adj };
        assert forall|k: int| 0 <= k < v implies r@[k] =~= Seq::<usize>::empty() by {
            assert(adj@[k]@.len() == 0);
        }
        assert(r@ =~= Seq::new(v as nat, |i: int| Seq::<usize>::empty()));
        r
    }

    /// The number of vertices.
    pub fn vertices(&self) -> (r: usize)
        ensures
            r == self@.len(),
    {
        self.adj.len()
    }

    /// The number of edges.
    pub fn edges(&self) -> (r: usize)
        ensures
            r == self.edge_count(),
    {
        self.e
    }

    fn checked_vertex(&self, vertex: usize) -> (r: usize)
        requires
            vertex < self@.len(),
        ensures
            r == vertex,
    {
        vertex
    }

    /// Adds the edge `v -> w`.
    pub fn add_edge(&mut self, v: usize, w: usize)
        requires
            v < old(self)@.len(),
            w < old(self)@.len(),
            old(self).edge_count() < usize::MAX,
        ensures
            final(self)@ == old(self)@.update(v as int, old(self)@[v as int].push(w)),
            final(self).edge_count() == old(self).edge_count() + 1,
            old(self).wf() ==> final(self).wf(),
    {
        let from_index = self.checked_vertex(v);
        let checked_index = self.checked_vertex(w);
        let ghost before = self@;
        self.adj[from_index].push(checked_index);
        self.e = self.e + 1;
        assert(self@ =~= before.update(v as int, before[v as int].push(w)));
    }

    /// The vertices that `vertex` has an edge to, in the order the edges were added.
    pub fn adj(&self, vertex: usize) -> (r: &[usize])
        requires
            vertex < self@.len(),
        ensures
            r@ == self@[vertex as int],
    {
        let checked_index = self.checked_vertex(vertex);
        self.adj[checked_index].as_slice()
    }
}

} // verus!
