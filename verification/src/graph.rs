use vstd::prelude::*;

use crate::errors::SimError;

verus! {

/// Holds when the edge `e` may stand in the edge list of a graph on `n`
/// nodes: both endpoints are in range and the edge is no self-loop.
pub open spec fn edge_ok(n: int, e: (usize, usize)) -> bool {
    e.0 < n && e.1 < n && e.0 != e.1
}

/// Holds when `e` joins `i` and `j`, in either orientation.
pub open spec fn edge_joins(e: (usize, usize), i: int, j: int) -> bool {
    (e.0 == i && e.1 == j) || (e.0 == j && e.1 == i)
}

/// Holds when the unordered pair `{i, j}` appears somewhere in `edges`.
pub open spec fn listed(edges: Seq<(usize, usize)>, i: int, j: int) -> bool {
    exists|k: int| 0 <= k < edges.len() && #[trigger] edge_joins(edges[k], i, j)
}

/// A fixed adjacency relation over the node identifiers `0 .. n`: symmetric,
/// unweighted, without self-loops, and immutable once constructed.
pub struct Graph {
    n: usize,
    adj: Vec<Vec<bool>>,
}

impl Graph {
    /// The number of nodes the graph was configured with.
    pub closed spec fn node_count(self) -> int {
        self.n as int
    }

    /// Whether `i` names a node of this graph.
    pub open spec fn valid_node(self, i: int) -> bool {
        0 <= i < self.node_count()
    }

    /// The raw cell of the adjacency matrix; meaningful only in range.
    pub closed spec fn cell(self, i: int, j: int) -> bool {
        self.adj@[i]@[j]
    }

    /// The adjacency relation: true exactly when `i` and `j` are valid,
    /// distinct nodes joined by an edge.
    pub open spec fn adjacent(self, i: int, j: int) -> bool {
        self.valid_node(i) && self.valid_node(j) && self.cell(i, j)
    }

    /// Well-formedness: the matrix has one cell per ordered pair of nodes,
    /// the relation is symmetric, and no node is adjacent to itself.
    pub closed spec fn wf(self) -> bool {
        &&& self.adj@.len() == self.n
        &&& forall|i: int| 0 <= i < self.n ==> (#[trigger] self.adj@[i])@.len() == self.n
        &&& forall|i: int, j: int|
            0 <= i < self.n && 0 <= j < self.n ==> #[trigger] self.cell(i, j) == self.cell(j, i)
        &&& forall|i: int| 0 <= i < self.n ==> !(#[trigger] self.cell(i, i))
    }

    /// Builds the symmetric relation over `0 .. n` from an edge list.  The
    /// whole list is validated first: a malformed edge leaves no partial
    /// graph behind.
    pub fn new(n: usize, edges: &Vec<(usize, usize)>) -> (r: Result<Graph, SimError>)
        ensures
            r is Ok <==> (forall|k: int|
                0 <= k < edges@.len() ==> edge_ok(n as int, #[trigger] edges@[k])),
            r is Err ==> r->Err_0 == SimError::ConfigurationError,
            r is Ok ==> r->Ok_0.wf() && r->Ok_0.node_count() == n,
            r is Ok ==> forall|i: int, j: int|
                #[trigger] r->Ok_0.adjacent(i, j) == listed(edges@, i, j),
    {
        if !edges_valid(n, edges) {
            return Err(SimError::ConfigurationError);
        }
        let mut adj: Vec<Vec<bool>> = Vec::new();
        let mut i: usize = 0;
        while i < n
            invariant
                i <= n,
                adj@.len() == i,
                forall|p: int| 0 <= p < i ==> (#[trigger] adj@[p])@.len() == n,
                forall|p: int, q: int|
                    0 <= p < i && 0 <= q < n ==> #[trigger] adj@[p]@[q] == listed(
                        edges@,
                        p,
                        q,
                    ),
            decreases n - i,
        {
            let mut row: Vec<bool> = Vec::new();
            let mut j: usize = 0;
            while j < n
                invariant
                    j <= n,
                    i < n,
                    row@.len() == j,
                    forall|q: int|
                        0 <= q < j ==> #[trigger] row@[q] == listed(edges@, i as int, q),
                decreases n - j,
            {
                row.push(edge_listed(edges, i, j));
                j += 1;
            }
            adj.push(row);
            i += 1;
        }
        let g = Graph { n, adj };
        proof {
            assert forall|i0: int, j0: int| #[trigger]
                g.adjacent(i0, j0) == listed(edges@, i0, j0) by {
                if listed(edges@, i0, j0) {
                    let k = choose|k: int|
                        0 <= k < edges@.len() && #[trigger] edge_joins(edges@[k], i0, j0);
                    assert(edge_ok(n as int, edges@[k]));
                }
            }
            assert forall|i0: int, j0: int|
                0 <= i0 < n && 0 <= j0 < n implies #[trigger] g.cell(i0, j0) == g.cell(
                j0,
                i0,
            ) by {
                assert(g.cell(i0, j0) == listed(edges@, i0, j0));
                assert(g.cell(j0, i0) == listed(edges@, j0, i0));
                if listed(edges@, i0, j0) {
                    let k = choose|k: int|
                        0 <= k < edges@.len() && #[trigger] edge_joins(edges@[k], i0, j0);
                    assert(edge_joins(edges@[k], j0, i0));
                }
                if listed(edges@, j0, i0) {
                    let k = choose|k: int|
                        0 <= k < edges@.len() && #[trigger] edge_joins(edges@[k], j0, i0);
                    assert(edge_joins(edges@[k], i0, j0));
                }
            }
            assert forall|i0: int| 0 <= i0 < n implies !(#[trigger] g.cell(i0, i0)) by {
                assert(g.cell(i0, i0) == listed(edges@, i0, i0));
                if listed(edges@, i0, i0) {
                    let k = choose|k: int|
                        0 <= k < edges@.len() && #[trigger] edge_joins(edges@[k], i0, i0);
                    assert(edge_ok(n as int, edges@[k]));
                }
            }
        }
        Ok(g)
    }

    /// The number of nodes, as a plain value.
    pub fn num_nodes(&self) -> (r: usize)
        ensures
            r as int == self.node_count(),
    {
        self.n
    }

    /// Answers whether `i` and `j` are adjacent; refuses identifiers outside
    /// the graph with `OutOfRange`.
    pub fn is_adjacent(&self, i: usize, j: usize) -> (r: Result<bool, SimError>)
        requires
            self.wf(),
        ensures
            r is Ok <==> (self.valid_node(i as int) && self.valid_node(j as int)),
            r is Ok ==> r->Ok_0 == self.adjacent(i as int, j as int),
            r is Err ==> r->Err_0 == SimError::OutOfRange,
    {
        if i >= self.n || j >= self.n {
            return Err(SimError::OutOfRange);
        }
        Ok(self.adj[i][j])
    }

    /// Adjacency for identifiers already known to be in range.
    pub(crate) fn adjacent_nodes(&self, i: usize, j: usize) -> (r: bool)
        requires
            self.wf(),
            self.valid_node(i as int),
            self.valid_node(j as int),
        ensures
            r == self.adjacent(i as int, j as int),
    {
        self.adj[i][j]
    }
}

/// The adjacency relation never distinguishes the order of its arguments:
/// `adjacent(i, j) == adjacent(j, i)` for every `i` and `j`.
pub proof fn lemma_adjacent_symmetric(g: Graph, i: int, j: int)
    requires
        g.wf(),
    ensures
        g.adjacent(i, j) == g.adjacent(j, i),
{
}

/// No node is adjacent to itself.
pub proof fn lemma_no_self_loop(g: Graph, i: int)
    requires
        g.wf(),
    ensures
        !g.adjacent(i, i),
{
}

/// Whether the unordered pair `{i, j}` appears in `edges`.
fn edge_listed(edges: &Vec<(usize, usize)>, i: usize, j: usize) -> (r: bool)
    ensures
        r == listed(edges@, i as int, j as int),
{
    let mut k: usize = 0;
    while k < edges.len()
        invariant
            k <= edges@.len(),
            forall|k2: int| 0 <= k2 < k ==> !edge_joins(#[trigger] edges@[k2], i as int, j as int),
        decreases edges@.len() - k,
    {
        let e = edges[k];
        if (e.0 == i && e.1 == j) || (e.0 == j && e.1 == i) {
            assert(edge_joins(edges@[k as int], i as int, j as int));
            return true;
        }
        k += 1;
    }
    false
}

/// Whether every edge keeps both endpoints in `0 .. n` and is no self-loop.
fn edges_valid(n: usize, edges: &Vec<(usize, usize)>) -> (r: bool)
    ensures
        r == (forall|k: int| 0 <= k < edges@.len() ==> edge_ok(n as int, #[trigger] edges@[k])),
{
    let mut k: usize = 0;
    while k < edges.len()
        invariant
            k <= edges@.len(),
            forall|k2: int| 0 <= k2 < k ==> edge_ok(n as int, #[trigger] edges@[k2]),
        decreases edges@.len() - k,
    {
        let e = edges[k];
        if e.0 >= n || e.1 >= n || e.0 == e.1 {
            return false;
        }
        k += 1;
    }
    true
}

} // verus!
