//! The dual graph that district plans live on.
use vstd::prelude::*;

verus! {

/// The sum of the first `k` populations.
pub open spec fn pop_sum(pops: Seq<u32>, k: int) -> int
    decreases k,
{
    if k <= 0 {
        0
    } else {
        pop_sum(pops, k - 1) + pops[k - 1]
    }
}

/// The neighbour lists of a vector of vectors, as sequences.
pub open spec fn lists(v: Seq<Vec<usize>>) -> Seq<Seq<usize>> {
    Seq::new(v.len(), |i: int| v[i]@)
}

/// The number of entries in the first `k` neighbour lists.
pub open spec fn degree_sum(adj: Seq<Seq<usize>>, k: int) -> int
    decreases k,
{
    if k <= 0 {
        0
    } else {
        degree_sum(adj, k - 1) + adj[k - 1].len()
    }
}

/// How often `v` occurs among the first `k` entries of `nb`.
pub open spec fn occurrences(nb: Seq<usize>, v: int, k: int) -> int
    decreases k,
{
    if k <= 0 {
        0
    } else {
        occurrences(nb, v, k - 1) + if nb[k - 1] == v {
            1int
        } else {
            0int
        }
    }
}

/// A graph on the nodes `0..pops.len()`: for each node its neighbours and
/// its population, and the population of all nodes together.
pub struct Graph {
    pub neighbors: Vec<Vec<usize>>,
    pub pops: Vec<u32>,
    pub total_pop: u32,
}

impl Graph {
    /// The neighbour lists.
    pub open spec fn adj(&self) -> Seq<Seq<usize>> {
        lists(self.neighbors@)
    }

    /// Every neighbour is a node, `total_pop` is the sum of `pops`, and the
    /// number of list entries fits a machine word.
    pub open spec fn wf(&self) -> bool {
        &&& self.neighbors.len() == self.pops.len()
        &&& forall|u: int, k: int|
            0 <= u < self.neighbors.len() && 0 <= k < self.neighbors[u].len()
                ==> #[trigger] self.neighbors[u][k] < self.pops.len()
        &&& self.total_pop == pop_sum(self.pops@, self.pops.len() as int)
        &&& degree_sum(self.adj(), self.pops.len() as int) <= usize::MAX
    }

    /// Each edge is listed as often from one end as from the other.
    pub open spec fn symmetric(&self) -> bool {
        forall|u: int, v: int|
            0 <= u < self.pops.len() && 0 <= v < self.pops.len() ==> #[trigger] occurrences(
                self.adj()[u],
                v,
                self.adj()[u].len() as int,
            ) == occurrences(self.adj()[v], u, self.adj()[v].len() as int)
    }

    /// Builds the graph from neighbour lists and populations. `None` where
    /// the two differ in length, a neighbour is no node, the populations do
    /// not add up within a `u32`, or the list entries are more than a machine
    /// word counts.
    pub fn new(neighbors: Vec<Vec<usize>>, pops: Vec<u32>) -> (g: Option<Graph>)
        ensures
            g matches Some(graph) ==> graph.wf() && graph.neighbors == neighbors && graph.pops
                == pops,
            g is Some <==> {
                &&& neighbors.len() == pops.len()
                &&& forall|u: int, k: int|
                    0 <= u < neighbors.len() && 0 <= k < neighbors[u].len()
                        ==> #[trigger] neighbors[u][k] < pops.len()
                &&& pop_sum(pops@, pops.len() as int) <= u32::MAX
                &&& degree_sum(lists(neighbors@), pops.len() as int) <= usize::MAX
            },
    {
        match total_of(&pops) {
            None => None,
            Some(total_pop) => {
                let graph = Graph { neighbors, pops, total_pop };
                assert(graph.adj() == lists(neighbors@));
                if graph.is_valid() {
                    Some(graph)
                } else {
                    None
                }
            },
        }
    }

    /// Whether the graph is well formed.
    pub fn is_valid(&self) -> (ok: bool)
        ensures
            ok == self.wf(),
    {
        let n = self.pops.len();
        if self.neighbors.len() != n {
            return false;
        }
        let summed = match total_of(&self.pops) {
            None => false,
            Some(total) => total == self.total_pop,
        };
        if !summed {
            return false;
        }
        let ghost adj = self.adj();
        let mut entries: usize = 0;
        let mut u: usize = 0;
        while u < n
            invariant
                u <= n,
                n == self.pops.len(),
                n == self.neighbors.len(),
                adj == self.adj(),
                self.total_pop == pop_sum(self.pops@, n as int),
                entries == degree_sum(adj, u as int),
                forall|a: int, k: int|
                    0 <= a < u && 0 <= k < self.neighbors[a].len()
                        ==> #[trigger] self.neighbors[a][k] < n,
            decreases n - u,
        {
            let deg = self.neighbors[u].len();
            let mut k: usize = 0;
            while k < deg
                invariant
                    k <= deg,
                    u < n,
                    n == self.neighbors.len(),
                    deg == self.neighbors[u as int].len(),
                    forall|j: int| 0 <= j < k ==> #[trigger] self.neighbors[u as int][j] < n,
                decreases deg - k,
            {
                if self.neighbors[u][k] >= n {
                    return false;
                }
                k += 1;
            }
            proof {
                lemma_degree_sum_grows(adj, u as int + 1, n as int);
            }
            match entries.checked_add(deg) {
                Some(count) => {
                    entries = count;
                },
                None => {
                    return false;
                },
            }
            u += 1;
        }
        true
    }
}

/// The sum of the populations, where it is a `u32`.
pub fn total_of(pops: &Vec<u32>) -> (total: Option<u32>)
    ensures
        match total {
            Some(sum) => sum == pop_sum(pops@, pops.len() as int),
            None => pop_sum(pops@, pops.len() as int) > u32::MAX,
        },
{
    let n = pops.len();
    let mut total: u32 = 0;
    let mut u: usize = 0;
    while u < n
        invariant
            u <= n,
            n == pops.len(),
            total == pop_sum(pops@, u as int),
        decreases n - u,
    {
        proof {
            lemma_pop_sum_grows(pops@, u as int + 1, n as int);
        }
        match total.checked_add(pops[u]) {
            Some(sum) => {
                total = sum;
            },
            None => {
                return None;
            },
        }
        u += 1;
    }
    Some(total)
}

/// A longer prefix of the populations sums to no less.
pub proof fn lemma_pop_sum_grows(pops: Seq<u32>, i: int, j: int)
    requires
        0 <= i <= j,
    ensures
        0 <= pop_sum(pops, i) <= pop_sum(pops, j),
    decreases j,
{
    if i < j {
        lemma_pop_sum_grows(pops, i, j - 1);
    } else if i > 0 {
        lemma_pop_sum_grows(pops, i - 1, i - 1);
    }
}

/// A longer prefix of the neighbour lists holds no fewer entries.
pub proof fn lemma_degree_sum_grows(adj: Seq<Seq<usize>>, i: int, j: int)
    requires
        0 <= i <= j,
    ensures
        0 <= degree_sum(adj, i) <= degree_sum(adj, j),
    decreases j,
{
    if i < j {
        lemma_degree_sum_grows(adj, i, j - 1);
    } else if i > 0 {
        lemma_degree_sum_grows(adj, i - 1, i - 1);
    }
}

} // verus!
