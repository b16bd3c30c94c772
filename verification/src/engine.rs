use vstd::prelude::*;

use crate::errors::SimError;
use crate::graph::Graph;

verus! {

/// The set of node identifiers held in `s`, order and repetition forgotten.
pub open spec fn id_set(s: Seq<usize>) -> Set<int> {
    Set::new(|i: int| exists|k: int| 0 <= k < s.len() && #[trigger] s[k] == i)
}

/// One propagation step of the infection rule: every node adjacent to an
/// infected node joins the infected set, and every infected node stays.
pub open spec fn step_spec(g: Graph, inf: Set<int>) -> Set<int> {
    inf.union(
        Set::new(|i: int| exists|j: int| #[trigger] g.adjacent(i, j) && inf.contains(j)),
    )
}

/// Holds when `inf` is closed under adjacency: every node adjacent to an
/// infected node is already infected.  The whole connected component of any
/// seed set is closed in this sense.
pub open spec fn closed_under_adjacency(g: Graph, inf: Set<int>) -> bool {
    forall|i: int, j: int| #[trigger] g.adjacent(i, j) && inf.contains(j) ==> inf.contains(i)
}

/// The nodes reachable from `s` in at most `k` propagation steps.
pub open spec fn reach_n(g: Graph, s: Set<int>, k: nat) -> Set<int>
    decreases k,
{
    if k == 0 {
        s
    } else {
        step_spec(g, reach_n(g, s, (k - 1) as nat))
    }
}

/// The full connected component of the seed set: every node that some
/// number of propagation steps can reach.
pub open spec fn component(g: Graph, s: Set<int>) -> Set<int> {
    Set::new(|i: int| exists|k: nat| #[trigger] reach_n(g, s, k).contains(i))
}

/// The propagation engine: owns the infected set, the generation counter and
/// the elapsed-time accumulator, and advances them one gated step at a time
/// over an immutable graph.
pub struct Engine {
    graph: Graph,
    infected: Vec<bool>,
    generation: u64,
    accumulated: u64,
    delay: u64,
}

impl Engine {
    /// The graph the engine propagates over; fixed for the run.
    pub closed spec fn graph_spec(self) -> Graph {
        self.graph
    }

    /// The set of currently infected node identifiers.
    pub closed spec fn infected_set(self) -> Set<int> {
        Set::new(|i: int| 0 <= i < self.infected@.len() && self.infected@[i])
    }

    /// How many propagation steps have fired.
    pub closed spec fn generation_spec(self) -> int {
        self.generation as int
    }

    /// Elapsed time accumulated since the last propagation step.
    pub closed spec fn accumulated_spec(self) -> int {
        self.accumulated as int
    }

    /// The delay threshold: a step fires only once this much time has
    /// accumulated.
    pub closed spec fn delay_spec(self) -> int {
        self.delay as int
    }

    /// Well-formedness: the graph is well formed and the infection flags
    /// cover exactly its nodes.
    pub closed spec fn wf(self) -> bool {
        &&& self.graph.wf()
        &&& self.infected@.len() == self.graph.node_count()
    }

    /// Starts a run: the infected set is exactly `seeds`, the generation is
    /// zero, and no time has accumulated.  A seed set that is empty or names
    /// a node outside the graph is refused with `InvalidSeed`.
    pub fn new(graph: Graph, seeds: &Vec<usize>, delay: u64) -> (r: Result<Engine, SimError>)
        requires
            graph.wf(),
        ensures
            r is Ok <==> (seeds@.len() > 0 && forall|k: int|
                0 <= k < seeds@.len() ==> (#[trigger] seeds@[k] as int) < graph.node_count()),
            r is Err ==> r->Err_0 == SimError::InvalidSeed,
            r is Ok ==> ({
                let e = r->Ok_0;
                &&& e.wf()
                &&& e.graph_spec() == graph
                &&& e.infected_set() == id_set(seeds@)
                &&& e.generation_spec() == 0
                &&& e.accumulated_spec() == 0
                &&& e.delay_spec() == delay
            }),
    {
        if seeds.len() == 0 {
            return Err(SimError::InvalidSeed);
        }
        let n = graph.num_nodes();
        let mut k: usize = 0;
        while k < seeds.len()
            invariant
                k <= seeds@.len(),
                n as int == graph.node_count(),
                forall|k2: int| 0 <= k2 < k ==> (#[trigger] seeds@[k2] as int) < n,
            decreases seeds@.len() - k,
        {
            if seeds[k] >= n {
                return Err(SimError::InvalidSeed);
            }
            k += 1;
        }
        let mut infected: Vec<bool> = Vec::new();
        let mut i: usize = 0;
        while i < n
            invariant
                i <= n,
                infected@.len() == i,
                forall|p: int| 0 <= p < i ==> #[trigger] infected@[p] == id_set(seeds@).contains(p),
            decreases n - i,
        {
            infected.push(contains_id(seeds, i));
            i += 1;
        }
        let e = Engine { graph, infected, generation: 0, accumulated: 0, delay };
        proof {
            assert forall|v: int| e.infected_set().contains(v) == id_set(seeds@).contains(v) by {
                if id_set(seeds@).contains(v) {
                    let k2 = choose|k2: int| 0 <= k2 < seeds@.len() && #[trigger] seeds@[k2] == v;
                    assert((seeds@[k2] as int) < n);
                }
            }
            assert(e.infected_set() =~= id_set(seeds@));
        }
        Ok(e)
    }

    /// Advances the clock by `elapsed`.  While the accumulated time stays
    /// under the delay the call is a pure timing gate: nothing else changes.
    /// Once it reaches the delay, exactly one propagation step fires —
    /// however far the threshold was exceeded — and the accumulator resets.
    /// Either way the infected set never shrinks.
    pub fn tick(&mut self, elapsed: u64)
        requires
            old(self).wf(),
            old(self).generation_spec() < u64::MAX,
        ensures
            final(self).wf(),
            final(self).graph_spec() == old(self).graph_spec(),
            final(self).delay_spec() == old(self).delay_spec(),
            old(self).infected_set().subset_of(final(self).infected_set()),
            old(self).accumulated_spec() + elapsed < old(self).delay_spec() ==> ({
                &&& final(self).infected_set() == old(self).infected_set()
                &&& final(self).generation_spec() == old(self).generation_spec()
                &&& final(self).accumulated_spec() == old(self).accumulated_spec() + elapsed
            }),
            old(self).accumulated_spec() + elapsed >= old(self).delay_spec() ==> ({
                &&& final(self).infected_set() == step_spec(
                    old(self).graph_spec(),
                    old(self).infected_set(),
                )
                &&& final(self).generation_spec() == old(self).generation_spec() + 1
                &&& final(self).accumulated_spec() == 0
            }),
    {
        if self.accumulated < self.delay && elapsed < self.delay - self.accumulated {
            self.accumulated = self.accumulated + elapsed;
            return;
        }
        self.accumulated = 0;
        let n = self.graph.num_nodes();
        let mut next: Vec<bool> = Vec::new();
        let mut i: usize = 0;
        while i < n
            invariant
                i <= n,
                self.graph == old(self).graph,
                self.infected == old(self).infected,
                self.generation == old(self).generation,
                self.delay == old(self).delay,
                self.graph.wf(),
                self.infected@.len() == n,
                n as int == self.graph.node_count(),
                next@.len() == i,
                forall|p: int|
                    0 <= p < i ==> #[trigger] next@[p] == step_spec(
                        old(self).graph_spec(),
                        old(self).infected_set(),
                    ).contains(p),
            decreases n - i,
        {
            let mut val = self.infected[i];
            let mut j: usize = 0;
            while j < n
                invariant
                    j <= n,
                    i < n,
                    self.graph == old(self).graph,
                    self.infected == old(self).infected,
                    self.graph.wf(),
                    self.infected@.len() == n,
                    n as int == self.graph.node_count(),
                    val == (self.infected@[i as int] || exists|q: int|
                        0 <= q < j && #[trigger] self.graph.adjacent(i as int, q)
                            && self.infected@[q]),
                decreases n - j,
            {
                if self.graph.adjacent_nodes(i, j) && self.infected[j] {
                    val = true;
                }
                j += 1;
            }
            proof {
                let g = old(self).graph_spec();
                let inf = old(self).infected_set();
                if val {
                    if !self.infected@[i as int] {
                        let q = choose|q: int|
                            0 <= q < n && #[trigger] self.graph.adjacent(i as int, q)
                                && self.infected@[q];
                        assert(inf.contains(q));
                        assert(g.adjacent(i as int, q) && inf.contains(q));
                    }
                } else {
                    if step_spec(g, inf).contains(i as int) {
                        if !inf.contains(i as int) {
                            let q = choose|q: int|
                                #[trigger] g.adjacent(i as int, q) && inf.contains(q);
                            assert(self.graph.adjacent(i as int, q) && self.infected@[q]);
                        }
                    }
                }
                assert(val == step_spec(g, inf).contains(i as int));
            }
            next.push(val);
            i += 1;
        }
        self.infected = next;
        self.generation = self.generation + 1;
        proof {
            let g = old(self).graph_spec();
            let inf = old(self).infected_set();
            assert forall|v: int|
                self.infected_set().contains(v) == step_spec(g, inf).contains(v) by {
                if step_spec(g, inf).contains(v) {
                    if !inf.contains(v) {
                        let q = choose|q: int| #[trigger] g.adjacent(v, q) && inf.contains(q);
                        assert(0 <= v < n);
                    }
                    assert(0 <= v < n);
                    assert(self.infected@[v] == step_spec(g, inf).contains(v));
                }
            }
            assert(self.infected_set() =~= step_spec(g, inf));
        }
    }

    /// A read-only view for a renderer: the generation number and a copy of
    /// the infected set, as identifiers in strictly increasing order.
    pub fn snapshot(&self) -> (r: (u64, Vec<usize>))
        requires
            self.wf(),
        ensures
            r.0 as int == self.generation_spec(),
            id_set(r.1@) == self.infected_set(),
            forall|a: int, b: int| 0 <= a < b < r.1@.len() ==> r.1@[a] < r.1@[b],
    {
        let n = self.graph.num_nodes();
        let mut ids: Vec<usize> = Vec::new();
        let mut i: usize = 0;
        while i < n
            invariant
                i <= n,
                self.wf(),
                self.infected@.len() == n,
                n as int == self.graph.node_count(),
                forall|k: int|
                    0 <= k < ids@.len() ==> ((#[trigger] ids@[k] as int) < i
                        && self.infected@[ids@[k] as int]),
                forall|v: int|
                    0 <= v < i && self.infected@[v] ==> id_set(ids@).contains(v),
                forall|a: int, b: int| 0 <= a < b < ids@.len() ==> ids@[a] < ids@[b],
            decreases n - i,
        {
            if self.infected[i] {
                let ghost prev = ids@;
                ids.push(i);
                proof {
                    assert(ids@[ids@.len() - 1] == i);
                    assert forall|v: int|
                        0 <= v < i + 1 && self.infected@[v] implies id_set(ids@).contains(
                        v,
                    ) by {
                        if v < i {
                            let k2 = choose|k2: int|
                                0 <= k2 < prev.len() && #[trigger] prev[k2] == v;
                            assert(ids@[k2] == v);
                        } else {
                            assert(ids@[ids@.len() - 1] == v);
                        }
                    }
                }
            }
            i += 1;
        }
        proof {
            assert forall|v: int|
                id_set(ids@).contains(v) == self.infected_set().contains(v) by {
                if id_set(ids@).contains(v) {
                    let k = choose|k: int| 0 <= k < ids@.len() && #[trigger] ids@[k] == v;
                    assert(self.infected@[v]);
                }
            }
            assert(id_set(ids@) =~= self.infected_set());
        }
        (self.generation, ids)
    }
}

/// Monotonicity of one step: propagation only ever adds nodes, so after any
/// number of ticks the infected set of an earlier state is a subset of every
/// later one.
pub proof fn lemma_step_monotone(g: Graph, inf: Set<int>)
    ensures
        inf.subset_of(step_spec(g, inf)),
{
}

/// Fixed point: a set closed under adjacency — in particular the full
/// connected component reachable from the seeds — is left unchanged by
/// further propagation steps (each of which still increments the
/// generation, by `tick`'s contract).
pub proof fn lemma_fixed_point(g: Graph, inf: Set<int>)
    requires
        closed_under_adjacency(g, inf),
    ensures
        step_spec(g, inf) == inf,
{
    assert forall|v: int| step_spec(g, inf).contains(v) == inf.contains(v) by {
        if step_spec(g, inf).contains(v) && !inf.contains(v) {
            let q = choose|q: int| #[trigger] g.adjacent(v, q) && inf.contains(q);
            assert(inf.contains(v));
        }
    }
    assert(step_spec(g, inf) =~= inf);
}

/// The seeds lie in their own connected component.
pub proof fn lemma_component_contains_seeds(g: Graph, s: Set<int>)
    ensures
        s.subset_of(component(g, s)),
{
    assert forall|i: int| s.contains(i) implies component(g, s).contains(i) by {
        assert(reach_n(g, s, 0).contains(i));
    }
}

/// The full connected component of the seed set is closed under adjacency;
/// with `lemma_fixed_point`, once the infected set equals it, further
/// propagation steps leave the infected set unchanged.
pub proof fn lemma_component_closed(g: Graph, s: Set<int>)
    ensures
        closed_under_adjacency(g, component(g, s)),
{
    assert forall|i: int, j: int|
        g.adjacent(i, j) && component(g, s).contains(j) implies component(g, s).contains(i) by {
        let k = choose|k: nat| #[trigger] reach_n(g, s, k).contains(j);
        assert(step_spec(g, reach_n(g, s, k)).contains(i));
        assert(reach_n(g, s, k + 1) == step_spec(g, reach_n(g, s, k)));
        assert(reach_n(g, s, (k + 1) as nat).contains(i));
    }
}

/// Propagation never escapes a closed set: an infected set held inside the
/// seeds' component stays inside it for the whole run.
pub proof fn lemma_step_stays_in_closed(g: Graph, inf: Set<int>, c: Set<int>)
    requires
        inf.subset_of(c),
        closed_under_adjacency(g, c),
    ensures
        step_spec(g, inf).subset_of(c),
{
    assert forall|i: int| step_spec(g, inf).contains(i) implies c.contains(i) by {
        if !inf.contains(i) {
            let q = choose|q: int| #[trigger] g.adjacent(i, q) && inf.contains(q);
            assert(c.contains(q));
        }
    }
}

/// The infected set of a well-formed engine holds valid node identifiers
/// only: it stays a subset of `0 .. node_count` for the whole run.
pub proof fn lemma_infected_in_range(e: Engine)
    requires
        e.wf(),
    ensures
        forall|i: int| e.infected_set().contains(i) ==> e.graph_spec().valid_node(i),
{
}

/// Whether `x` occurs in `s`.
fn contains_id(s: &Vec<usize>, x: usize) -> (r: bool)
    ensures
        r == id_set(s@).contains(x as int),
{
    let mut k: usize = 0;
    while k < s.len()
        invariant
            k <= s@.len(),
            forall|k2: int| 0 <= k2 < k ==> #[trigger] s@[k2] != x,
        decreases s@.len() - k,
    {
        if s[k] == x {
            assert(s@[k as int] == x as int);
            return true;
        }
        k += 1;
    }
    proof {
        if id_set(s@).contains(x as int) {
            let k2 = choose|k2: int| 0 <= k2 < s@.len() && #[trigger] s@[k2] == x as int;
            assert(s@[k2] != x);
            assert(false);
        }
    }
    false
}

} // verus!
