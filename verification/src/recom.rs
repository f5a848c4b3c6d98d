//! Proposals of the recombination chain, and the split that makes them: a
//! spanning tree of two merged districts is cut into two districts whose
//! populations both lie within the allowed range.
use crate::buffers::SplitBuffer;
use crate::counting::lemma_tally_flat;
use crate::cutting::{
    cut_tree, lemma_side_b_len, lemma_sides, lemma_sweep, outside, relabel, side_a, side_b,
};
use crate::gather::gather_pops;
use crate::graph::{lists, Graph};
use crate::rng::draw_index;
use crate::rooting::{holds_rooting, root_tree};
use crate::seam::{
    hits, lemma_hits_grows, lemma_seam_by_sets, lemma_seam_fits, lemma_seam_grows,
    lemma_seam_symmetric, node_set, seam_count, seam_upto,
};
use crate::graph::pop_sum;
use crate::tree::{
    below, first_branch, hangs, is_spanning_tree, lemma_first_branch, lemma_rooting_at, names,
    rooting_at, split_root, under, Rooting,
};
use crate::weights::{lemma_mass_bounds, weight};
use rand::rngs::SmallRng;
use vstd::prelude::*;

verus! {

/// A spanning tree as a list of neighbour lists: entry `i` lists the tree
/// neighbours of node `i`.
pub type MST = Vec<Vec<usize>>;

/// A proposal of the chain: two districts, `a` and `b`, merged and split
/// anew.
#[derive(Clone)]
pub struct RecomProposal {
    /// The label of the `a`-district.
    pub a_label: usize,
    /// The label of the `b`-district.
    pub b_label: usize,
    /// The population of the proposed `a`-district.
    pub a_pop: u32,
    /// The population of the proposed `b`-district.
    pub b_pop: u32,
    /// The nodes of the proposed `a`-district.
    pub a_nodes: Vec<usize>,
    /// The nodes of the proposed `b`-district.
    pub b_nodes: Vec<usize>,
}

/// What a proposal holds.
pub struct ProposalView {
    pub a_label: usize,
    pub b_label: usize,
    pub a_pop: u32,
    pub b_pop: u32,
    pub a_nodes: Seq<usize>,
    pub b_nodes: Seq<usize>,
}

impl View for RecomProposal {
    type V = ProposalView;

    open spec fn view(&self) -> ProposalView {
        ProposalView {
            a_label: self.a_label,
            b_label: self.b_label,
            a_pop: self.a_pop,
            b_pop: self.b_pop,
            a_nodes: self.a_nodes@,
            b_nodes: self.b_nodes@,
        }
    }
}

/// The kinds of chain.
#[derive(Copy, Clone, PartialEq, Eq, Structural)]
pub enum RecomVariant {
    /// Reversible ReCom.
    Reversible,
    /// District pairs by a random cut edge, uniform spanning trees.
    CutEdgesUST,
    /// District pairs by random pairs of labels, uniform spanning trees.
    DistrictPairsUST,
    /// District pairs by a random cut edge, spanning trees of least random
    /// weight.
    CutEdgesRMST,
    /// District pairs by random pairs of labels, spanning trees of least
    /// random weight.
    DistrictPairsRMST,
    /// District pairs by random pairs of labels, spanning trees weighted to
    /// keep regions whole.
    DistrictPairsRegionAware,
}

/// The parameters of a chain run.
#[derive(Copy, Clone)]
pub struct RecomParams {
    /// The least population of a district.
    pub min_pop: u32,
    /// The greatest population of a district.
    pub max_pop: u32,
    /// A bound on the number of balance nodes that a tree is expected to
    /// have. Nothing enforces it.
    pub balance_ub: u32,
    /// The number of steps of the run.
    pub num_steps: u64,
    /// The seed of the random source.
    pub rng_seed: u64,
    /// The kind of chain.
    pub variant: RecomVariant,
}

/// Why a tree could not be split. Either way the caller draws again.
#[derive(Copy, Clone, PartialEq, Eq, Structural, Debug)]
pub enum SplitError {
    /// No node of the tree has more than one neighbour, so none can be the
    /// root.
    NoRootableNode,
    /// No subtree leaves both sides within the population range.
    NoBalancedCut,
}

impl SplitError {
    /// The error in words.
    pub fn message(&self) -> (text: String)
        ensures
            text@ == match *self {
                SplitError::NoRootableNode => "no rootable node in the spanning tree"@,
                SplitError::NoBalancedCut => "no balanced cut"@,
            },
    {
        match self {
            SplitError::NoRootableNode => "no rootable node in the spanning tree".to_owned(),
            SplitError::NoBalancedCut => "no balanced cut".to_owned(),
        }
    }
}

/// A side of population `p` and the rest of `total` both lie in `lo..=hi`.
pub open spec fn balanced(p: int, total: int, lo: int, hi: int) -> bool {
    lo <= p <= hi && lo <= total - p <= hi
}

/// The balance nodes below `k`, ascending: the nodes whose subtree can be
/// cut off in balance.
pub open spec fn cuts_upto(
    pops: Seq<u32>,
    t: Rooting,
    total: int,
    lo: int,
    hi: int,
    k: int,
) -> Seq<usize>
    decreases k,
{
    if k <= 0 {
        Seq::empty()
    } else {
        let rest = cuts_upto(pops, t, total, lo, hi, k - 1);
        if balanced(weight(pops, t, k - 1), total, lo, hi) {
            rest.push((k - 1) as usize)
        } else {
            rest
        }
    }
}

/// The balance nodes of the tree `adj`, rooted where the split roots it.
pub open spec fn cuts(pops: Seq<u32>, adj: Seq<Seq<usize>>, total: int, lo: int, hi: int) -> Seq<
    usize,
> {
    cuts_upto(pops, rooting_at(adj, split_root(adj)), total, lo, hi, adj.len() as int)
}

/// Whether the tree can be split, and at how many nodes.
pub open spec fn split_verdict(
    pops: Seq<u32>,
    adj: Seq<Seq<usize>>,
    total: int,
    lo: int,
    hi: int,
) -> Result<usize, SplitError> {
    if split_root(adj) >= adj.len() {
        Err(SplitError::NoRootableNode)
    } else if cuts(pops, adj, total, lo, hi).len() == 0 {
        Err(SplitError::NoBalancedCut)
    } else {
        Ok(cuts(pops, adj, total, lo, hi).len() as usize)
    }
}

/// The proposal that cutting the tree above `cut` gives: the subtree at
/// `cut` is district `a`, breadth-first; the rest is district `b`,
/// ascending; both under the names of `map`.
pub open spec fn split_outcome(
    pops: Seq<u32>,
    adj: Seq<Seq<usize>>,
    map: Seq<usize>,
    total: int,
    a: usize,
    b: usize,
    cut: int,
) -> ProposalView {
    let t = rooting_at(adj, split_root(adj));
    ProposalView {
        a_label: a,
        b_label: b,
        a_pop: weight(pops, t, cut) as u32,
        b_pop: (total - weight(pops, t, cut)) as u32,
        a_nodes: relabel(side_a(adj, t, cut), map),
        b_nodes: relabel(side_b(adj, t, cut), map),
    }
}

/// The proposal divides `nodes` between two districts whose populations
/// add up to `total` and both lie in `lo..=hi`: the two lists are together
/// as long as `nodes` and hold the same names. Where no name in `nodes`
/// stands for two nodes, no name is in both districts.
pub open spec fn fair_split(
    p: ProposalView,
    nodes: Seq<usize>,
    total: int,
    lo: int,
    hi: int,
) -> bool {
    &&& p.a_pop + p.b_pop == total
    &&& lo <= p.a_pop <= hi
    &&& lo <= p.b_pop <= hi
    &&& p.a_nodes.len() + p.b_nodes.len() == nodes.len()
    &&& p.a_nodes.to_set().union(p.b_nodes.to_set()) == nodes.to_set()
    &&& nodes.no_duplicates() ==> p.a_nodes.to_set().disjoint(p.b_nodes.to_set())
}

/// The buffer is as `balance_cuts` leaves it on success: the tree has a
/// root, the buffer holds the rooted tree, the population of every subtree
/// and the balance nodes, and no node is marked for a side.
pub open spec fn holds_cuts(
    buf: &SplitBuffer,
    pops: Seq<u32>,
    adj: Seq<Seq<usize>>,
    total: int,
    lo: int,
    hi: int,
) -> bool {
    &&& buf.wf()
    &&& adj.len() <= buf.capacity()
    &&& split_root(adj) < adj.len()
    &&& buf.deque@.len() == 0
    &&& holds_rooting(buf, adj, rooting_at(adj, split_root(adj)))
    &&& forall|v: int|
        0 <= v < adj.len() ==> #[trigger] buf.tree_pops[v] == weight(
            pops,
            rooting_at(adj, split_root(adj)),
            v,
        )
    &&& buf.balance_nodes@ == cuts(pops, adj, total, lo, hi)
    &&& forall|v: int| 0 <= v < buf.in_a.len() ==> !#[trigger] buf.in_a[v]
}

/// Whichever balance node is drawn, the proposal divides the nodes between
/// two districts in balance: no node is left out, the two populations add
/// up to the whole and both lie in the range, and where `map` names no node
/// twice the districts share no name.
pub proof fn lemma_split_is_fair(
    pops: Seq<u32>,
    adj: Seq<Seq<usize>>,
    map: Seq<usize>,
    total: int,
    a: usize,
    b: usize,
    lo: int,
    hi: int,
    pick: int,
)
    requires
        is_spanning_tree(adj),
        pops.len() == adj.len(),
        map.len() == adj.len(),
        adj.len() <= usize::MAX,
        total == pop_sum(pops, pops.len() as int),
        total <= u32::MAX,
        split_verdict(pops, adj, total, lo, hi) is Ok,
        0 <= pick < cuts(pops, adj, total, lo, hi).len(),
    ensures
        fair_split(
            split_outcome(pops, adj, map, total, a, b, cuts(pops, adj, total, lo, hi)[pick] as int),
            map,
            total,
            lo,
            hi,
        ),
{
    let n = adj.len() as int;
    let t = rooting_at(adj, split_root(adj));
    let cut = cuts(pops, adj, total, lo, hi)[pick] as int;
    lemma_first_branch(adj, 0);
    lemma_rooting_at(adj, split_root(adj));
    lemma_cuts(pops, t, total, lo, hi, n);
    lemma_mass_bounds(pops, below(t, cut), n);
    let ina = Seq::new(adj.len(), |v: int| false);
    let w = Seq::new(adj.len(), |v: int| 1int);
    let q = seq![cut as usize];
    assert(q[0] == cut);
    assert(under(t, cut, cut));
    assert forall|v: int| 0 <= v < n && v != cut implies !ina[#[trigger] t.parent[v]] by {
        if v != t.root {
            assert(hangs(adj, t, v));
        }
    }
    lemma_tally_flat(w, 1, n);
    lemma_sweep(adj, t, cut, ina, q, w);
    let s = side_a(adj, t, cut);
    assert forall|x: int| 0 <= x < n implies (under(t, cut, x) <==> names(s, x)) by {
        if names(s, x) {
            let i = choose|i: int| 0 <= i < s.len() && #[trigger] s[i] == x;
        }
    }
    lemma_sides(adj, t, cut, map);
    lemma_side_b_len(t, cut, outside(t, cut, ina, adj.len()), n);
}

/// A tree in which no node has more than one neighbour, such as two nodes
/// on one edge, has no root, whatever the populations and the range.
pub proof fn lemma_no_branch_no_root(
    pops: Seq<u32>,
    adj: Seq<Seq<usize>>,
    total: int,
    lo: int,
    hi: int,
)
    requires
        forall|u: int| 0 <= u < adj.len() ==> (#[trigger] adj[u]).len() <= 1,
    ensures
        split_verdict(pops, adj, total, lo, hi) == Err::<usize, SplitError>(
            SplitError::NoRootableNode,
        ),
{
    lemma_first_branch(adj, 0);
}

/// Every balance node is a node, and cutting there is balanced.
pub proof fn lemma_cuts(pops: Seq<u32>, t: Rooting, total: int, lo: int, hi: int, k: int)
    requires
        0 <= k <= usize::MAX,
    ensures
        cuts_upto(pops, t, total, lo, hi, k).len() <= k,
        forall|i: int|
            0 <= i < cuts_upto(pops, t, total, lo, hi, k).len() ==> {
                &&& #[trigger] cuts_upto(pops, t, total, lo, hi, k)[i] < k
                &&& balanced(
                    weight(pops, t, cuts_upto(pops, t, total, lo, hi, k)[i] as int),
                    total,
                    lo,
                    hi,
                )
            },
    decreases k,
{
    if k > 0 {
        lemma_cuts(pops, t, total, lo, hi, k - 1);
    }
}

impl RecomProposal {
    /// An empty proposal with room for `n` nodes on each side.
    pub fn new_buffer(n: usize) -> (proposal: RecomProposal)
        ensures
            proposal@ == (ProposalView {
                a_label: 0,
                b_label: 0,
                a_pop: 0,
                b_pop: 0,
                a_nodes: Seq::empty(),
                b_nodes: Seq::empty(),
            }),
    {
        RecomProposal {
            a_label: 0,
            b_label: 0,
            a_pop: 0,
            b_pop: 0,
            a_nodes: Vec::with_capacity(n),
            b_nodes: Vec::with_capacity(n),
        }
    }

    /// Every node of the proposal is a node of `graph`.
    pub open spec fn within(&self, graph: &Graph) -> bool {
        &&& forall|i: int|
            0 <= i < self.a_nodes.len() ==> #[trigger] self.a_nodes[i] < graph.pops.len()
        &&& forall|i: int|
            0 <= i < self.b_nodes.len() ==> #[trigger] self.b_nodes[i] < graph.pops.len()
    }

    /// The seam length of the proposal in `graph`: the number of edges
    /// between a node of the `b`-district and a node of the `a`-district, as
    /// the neighbour lists of the `b`-district name them.
    pub fn seam_length(&self, graph: &Graph) -> (seam: usize)
        requires
            graph.wf(),
            self.within(graph),
            seam_count(graph.adj(), self.a_nodes@, self.b_nodes@) <= usize::MAX,
        ensures
            seam == seam_count(graph.adj(), self.a_nodes@, self.b_nodes@),
    {
        let n = graph.pops.len();
        let ghost adj = graph.adj();
        let ghost a = self.a_nodes@;
        let ghost b = self.b_nodes@;
        let mut a_mask: Vec<bool> = Vec::with_capacity(n);
        let mut v: usize = 0;
        while v < n
            invariant
                v <= n,
                a_mask.len() == v,
                forall|x: int| 0 <= x < v ==> !#[trigger] a_mask[x],
            decreases n - v,
        {
            a_mask.push(false);
            v += 1;
        }
        let a_len = self.a_nodes.len();
        let mut i: usize = 0;
        while i < a_len
            invariant
                i <= a_len,
                a_len == a.len(),
                a == self.a_nodes@,
                a_mask.len() == n,
                forall|m: int| 0 <= m < a.len() ==> #[trigger] a[m] < n,
                forall|x: int| 0 <= x < n ==> #[trigger] a_mask[x] == names(a.take(i as int), x),
            decreases a_len - i,
        {
            let node = self.a_nodes[i];
            let ghost before = a.take(i as int);
            let ghost now = a.take(i as int + 1);
            a_mask[node] = true;
            proof {
                assert forall|x: int| 0 <= x < n implies #[trigger] a_mask[x] == names(now, x) by {
                    if names(before, x) {
                        let m = choose|m: int| 0 <= m < before.len() && #[trigger] before[m] == x;
                        assert(now[m] == x);
                    }
                    if names(now, x) && x != node {
                        let m = choose|m: int| 0 <= m < now.len() && #[trigger] now[m] == x;
                        assert(before[m] == x);
                    }
                    if x == node {
                        assert(now[i as int] == x);
                    }
                }
            }
            i += 1;
        }
        proof {
            assert(a.take(a_len as int) =~= a);
        }
        let b_len = self.b_nodes.len();
        let mut seam: usize = 0;
        let mut j: usize = 0;
        while j < b_len
            invariant
                j <= b_len,
                b_len == b.len(),
                b == self.b_nodes@,
                adj == graph.adj(),
                n == graph.pops.len(),
                graph.wf(),
                a_mask.len() == n,
                forall|m: int| 0 <= m < b.len() ==> #[trigger] b[m] < n,
                forall|x: int| 0 <= x < n ==> #[trigger] a_mask[x] == names(a, x),
                seam_count(adj, a, b) <= usize::MAX,
                seam == seam_upto(adj, a, b, j as int),
            decreases b_len - j,
        {
            let node = self.b_nodes[j];
            let deg = graph.neighbors[node].len();
            let ghost nb = adj[node as int];
            proof {
                lemma_seam_grows(adj, a, b, j as int + 1, b.len() as int);
                lemma_seam_grows(adj, a, b, j as int, j as int);
            }
            let mut k: usize = 0;
            while k < deg
                invariant
                    k <= deg,
                    node < n,
                    n == graph.pops.len(),
                    graph.wf(),
                    nb == graph.neighbors[node as int]@,
                    deg == nb.len(),
                    a_mask.len() == n,
                    forall|x: int| 0 <= x < n ==> #[trigger] a_mask[x] == names(a, x),
                    seam_upto(adj, a, b, j as int) + hits(nb, a, deg as int) <= usize::MAX,
                    seam == seam_upto(adj, a, b, j as int) + hits(nb, a, k as int),
                decreases deg - k,
            {
                proof {
                    lemma_hits_grows(nb, a, k as int + 1, deg as int);
                }
                if a_mask[graph.neighbors[node][k]] {
                    seam = seam + 1;
                }
                k += 1;
            }
            j += 1;
        }
        seam
    }

    /// Empties both node lists. Labels and populations stay as they were.
    pub fn clear(&mut self)
        ensures
            final(self)@ == (ProposalView {
                a_nodes: Seq::empty(),
                b_nodes: Seq::empty(),
                ..old(self)@
            }),
    {
        self.a_nodes.clear();
        self.b_nodes.clear();
    }
}

/// The seam length of a proposal whose `b`-district lists no node twice
/// depends on the nodes that the two districts hold, and on nothing else of
/// the proposal.
pub proof fn lemma_seam_of_sets(graph: Graph, p: ProposalView, q: ProposalView)
    requires
        graph.wf(),
        forall|i: int| 0 <= i < p.b_nodes.len() ==> #[trigger] p.b_nodes[i] < graph.pops.len(),
        forall|i: int| 0 <= i < q.b_nodes.len() ==> #[trigger] q.b_nodes[i] < graph.pops.len(),
        p.b_nodes.no_duplicates(),
        q.b_nodes.no_duplicates(),
        p.a_nodes.to_set() == q.a_nodes.to_set(),
        p.b_nodes.to_set() == q.b_nodes.to_set(),
    ensures
        seam_count(graph.adj(), p.a_nodes, p.b_nodes) == seam_count(
            graph.adj(),
            q.a_nodes,
            q.b_nodes,
        ),
{
    let adj = graph.adj();
    assert forall|u: int, k: int| 0 <= u < adj.len() && 0 <= k < adj[u].len()
        implies #[trigger] adj[u][k]
        < adj.len() by {
        assert(graph.neighbors[u][k] < graph.pops.len());
    }
    lemma_seam_by_sets(adj, p.a_nodes, p.b_nodes);
    lemma_seam_by_sets(adj, q.a_nodes, q.b_nodes);
    lemma_same_nodes(p.a_nodes, q.a_nodes);
    lemma_same_nodes(p.b_nodes, q.b_nodes);
}

/// Lists that hold the same nodes give the same node set.
proof fn lemma_same_nodes(s: Seq<usize>, r: Seq<usize>)
    requires
        s.to_set() == r.to_set(),
    ensures
        node_set(s) == node_set(r),
{
    assert forall|x: int| names(s, x) == names(r, x) by {
        if names(s, x) {
            let i = choose|i: int| 0 <= i < s.len() && #[trigger] s[i] == x;
            assert(s.to_set().contains(s[i]));
            assert(r.contains(s[i]));
            let j = choose|j: int| 0 <= j < r.len() && r[j] == s[i];
            assert(r[j] == x);
        }
        if names(r, x) {
            let i = choose|i: int| 0 <= i < r.len() && #[trigger] r[i] == x;
            assert(r.to_set().contains(r[i]));
            assert(s.contains(r[i]));
            let j = choose|j: int| 0 <= j < s.len() && s[j] == r[i];
            assert(s[j] == x);
        }
    }
    assert(node_set(s) =~= node_set(r));
}

/// In a graph that lists every edge alike from both ends, the seam length
/// of a proposal that lists no node twice on either side is the same
/// whichever district is called `a`. Such a seam length fits a machine word.
pub proof fn lemma_seam_swap(graph: Graph, p: ProposalView)
    requires
        graph.wf(),
        graph.symmetric(),
        forall|i: int| 0 <= i < p.a_nodes.len() ==> #[trigger] p.a_nodes[i] < graph.pops.len(),
        forall|i: int| 0 <= i < p.b_nodes.len() ==> #[trigger] p.b_nodes[i] < graph.pops.len(),
        p.a_nodes.no_duplicates(),
        p.b_nodes.no_duplicates(),
    ensures
        seam_count(graph.adj(), p.a_nodes, p.b_nodes) == seam_count(
            graph.adj(),
            p.b_nodes,
            p.a_nodes,
        ),
        seam_count(graph.adj(), p.a_nodes, p.b_nodes) <= usize::MAX,
{
    let adj = graph.adj();
    assert forall|u: int, k: int| 0 <= u < adj.len() && 0 <= k < adj[u].len()
        implies #[trigger] adj[u][k]
        < adj.len() by {
        assert(graph.neighbors[u][k] < graph.pops.len());
    }
    lemma_seam_symmetric(adj, p.a_nodes, p.b_nodes);
    lemma_seam_fits(adj, p.a_nodes, p.b_nodes);
}

/// The first node of the tree with more than one neighbour, or the number
/// of nodes where there is none.
pub fn find_root(mst: &MST) -> (root: usize)
    ensures
        root == split_root(lists(mst@)),
        root <= mst.len(),
{
    let n = mst.len();
    let ghost adj = lists(mst@);
    let mut root: usize = 0;
    while root < n
        invariant
            root <= n,
            n == mst.len(),
            adj == lists(mst@),
            first_branch(adj, root as int) == first_branch(adj, 0),
        decreases n - root,
    {
        if mst[root].len() > 1 {
            return root;
        }
        root += 1;
    }
    root
}

/// Roots the tree, sums the population of every subtree and collects the
/// balance nodes in the buffer. Returns how many there are, or why the tree
/// cannot be split.
pub fn balance_cuts(
    subgraph: &Graph,
    mst: &MST,
    buf: &mut SplitBuffer,
    params: &RecomParams,
) -> (res: Result<usize, SplitError>)
    requires
        subgraph.wf(),
        mst.len() == subgraph.pops.len(),
        is_spanning_tree(lists(mst@)),
        old(buf).wf(),
        mst.len() <= old(buf).capacity(),
    ensures
        final(buf).wf(),
        final(buf).capacity() == old(buf).capacity(),
        res == split_verdict(
            subgraph.pops@,
            lists(mst@),
            subgraph.total_pop as int,
            params.min_pop as int,
            params.max_pop as int,
        ),
        res matches Ok(count) ==> 1 <= count <= mst.len(),
        res is Ok ==> holds_cuts(
            final(buf),
            subgraph.pops@,
            lists(mst@),
            subgraph.total_pop as int,
            params.min_pop as int,
            params.max_pop as int,
        ),
{
    buf.clear();
    let n = mst.len();
    let ghost adj = lists(mst@);
    let root = find_root(mst);
    if root == n {
        return Err(SplitError::NoRootableNode);
    }
    let ghost t = rooting_at(adj, root as int);
    proof {
        lemma_first_branch(adj, 0);
        lemma_rooting_at(adj, root as int);
    }
    root_tree(mst, root, buf, Ghost(t));
    gather_pops(&subgraph.pops, mst, root, buf, Ghost(t));
    let total = subgraph.total_pop;
    let ghost lo = params.min_pop as int;
    let ghost hi = params.max_pop as int;
    let mut index: usize = 0;
    while index < n
        invariant
            index <= n,
            n == mst.len(),
            n == subgraph.pops.len(),
            total == pop_sum(subgraph.pops@, n as int),
            lo == params.min_pop,
            hi == params.max_pop,
            buf.wf(),
            buf.capacity() == old(buf).capacity(),
            n <= buf.capacity(),
            buf.deque@.len() == 0,
            holds_rooting(buf, adj, t),
            forall|v: int| 0 <= v < buf.in_a.len() ==> !#[trigger] buf.in_a[v],
            forall|v: int|
                0 <= v < n ==> #[trigger] buf.tree_pops[v] == weight(subgraph.pops@, t, v),
            buf.balance_nodes@ == cuts_upto(subgraph.pops@, t, total as int, lo, hi, index as int),
        decreases n - index,
    {
        let pop = buf.tree_pops[index];
        proof {
            lemma_mass_bounds(subgraph.pops@, below(t, index as int), n as int);
        }
        if pop >= params.min_pop && pop <= params.max_pop && total - pop >= params.min_pop && total
            - pop <= params.max_pop {
            buf.balance_nodes.push(index);
        }
        index += 1;
    }
    proof {
        lemma_cuts(subgraph.pops@, t, total as int, lo, hi, n as int);
    }
    if buf.balance_nodes.len() == 0 {
        Err(SplitError::NoBalancedCut)
    } else {
        Ok(buf.balance_nodes.len())
    }
}

/// Cuts the tree at the balance node that stands at place `pick` among the
/// balance nodes, and writes the two districts to `proposal`.
pub fn split_at(
    subgraph: &Graph,
    mst: &MST,
    a: usize,
    b: usize,
    buf: &mut SplitBuffer,
    proposal: &mut RecomProposal,
    subgraph_map: &Vec<usize>,
    params: &RecomParams,
    pick: usize,
)
    requires
        subgraph.wf(),
        mst.len() == subgraph.pops.len(),
        subgraph_map.len() == mst.len(),
        is_spanning_tree(lists(mst@)),
        holds_cuts(
            old(buf),
            subgraph.pops@,
            lists(mst@),
            subgraph.total_pop as int,
            params.min_pop as int,
            params.max_pop as int,
        ),
        pick < old(buf).balance_nodes.len(),
    ensures
        final(buf).wf(),
        final(buf).capacity() == old(buf).capacity(),
        final(proposal)@ == split_outcome(
            subgraph.pops@,
            lists(mst@),
            subgraph_map@,
            subgraph.total_pop as int,
            a,
            b,
            old(buf).balance_nodes[pick as int] as int,
        ),
        fair_split(
            final(proposal)@,
            subgraph_map@,
            subgraph.total_pop as int,
            params.min_pop as int,
            params.max_pop as int,
        ),
{
    let ghost adj = lists(mst@);
    let ghost t = rooting_at(adj, split_root(adj));
    let ghost pops = subgraph.pops@;
    let n = mst.len();
    proof {
        lemma_first_branch(adj, 0);
        lemma_rooting_at(adj, split_root(adj));
        lemma_cuts(
            pops,
            t,
            subgraph.total_pop as int,
            params.min_pop as int,
            params.max_pop as int,
            n as int,
        );
    }
    proposal.clear();
    let cut = buf.balance_nodes[pick];
    proof {
        lemma_mass_bounds(pops, below(t, cut as int), n as int);
    }
    let a_pop = cut_tree(
        &subgraph.pops,
        subgraph_map,
        cut,
        buf,
        &mut proposal.a_nodes,
        &mut proposal.b_nodes,
        Ghost(adj),
        Ghost(t),
    );
    proposal.a_label = a;
    proposal.b_label = b;
    proposal.a_pop = a_pop;
    proposal.b_pop = subgraph.total_pop - a_pop;
    proof {
        lemma_sides(adj, t, cut as int, subgraph_map@);
    }
}

/// Attempts to split the tree `mst` of `subgraph` into two districts in
/// balance, at a balance node drawn from `rng`. On success the proposal
/// holds the two districts under the labels `a` and `b`, their nodes named
/// through `subgraph_map`, and the number of balance nodes is returned. On
/// failure the proposal's node lists are empty.
///
/// `mst` has to be a spanning tree on the nodes of the subgraph, which
/// `spanning::is_tree` decides, and the buffer has to have room for them,
/// which `SplitBuffer::has_room` tells.
pub fn random_split(
    subgraph: &Graph,
    rng: &mut SmallRng,
    mst: &MST,
    a: usize,
    b: usize,
    buf: &mut SplitBuffer,
    proposal: &mut RecomProposal,
    subgraph_map: &Vec<usize>,
    params: &RecomParams,
) -> (res: Result<usize, SplitError>)
    requires
        subgraph.wf(),
        mst.len() == subgraph.pops.len(),
        subgraph_map.len() == mst.len(),
        is_spanning_tree(lists(mst@)),
        old(buf).wf(),
        mst.len() <= old(buf).capacity(),
    ensures
        final(buf).wf(),
        final(buf).capacity() == old(buf).capacity(),
        res == split_verdict(
            subgraph.pops@,
            lists(mst@),
            subgraph.total_pop as int,
            params.min_pop as int,
            params.max_pop as int,
        ),
        res matches Ok(count) ==> 1 <= count <= mst.len(),
        res is Err ==> final(proposal)@ == (ProposalView {
            a_nodes: Seq::empty(),
            b_nodes: Seq::empty(),
            ..old(proposal)@
        }),
        res is Ok ==> exists|pick: int|
            0 <= pick < cuts(
                subgraph.pops@,
                lists(mst@),
                subgraph.total_pop as int,
                params.min_pop as int,
                params.max_pop as int,
            ).len() && final(proposal)@ == split_outcome(
                subgraph.pops@,
                lists(mst@),
                subgraph_map@,
                subgraph.total_pop as int,
                a,
                b,
                #[trigger] cuts(
                    subgraph.pops@,
                    lists(mst@),
                    subgraph.total_pop as int,
                    params.min_pop as int,
                    params.max_pop as int,
                )[pick] as int,
            ),
        res == Ok::<usize, SplitError>(1) ==> final(proposal)@ == split_outcome(
            subgraph.pops@,
            lists(mst@),
            subgraph_map@,
            subgraph.total_pop as int,
            a,
            b,
            cuts(
                subgraph.pops@,
                lists(mst@),
                subgraph.total_pop as int,
                params.min_pop as int,
                params.max_pop as int,
            )[0] as int,
        ),
        res is Ok ==> fair_split(
            final(proposal)@,
            subgraph_map@,
            subgraph.total_pop as int,
            params.min_pop as int,
            params.max_pop as int,
        ),
{
    proposal.clear();
    match balance_cuts(subgraph, mst, buf, params) {
        Err(e) => Err(e),
        Ok(count) => {
            proof {
                lemma_cuts(
                    subgraph.pops@,
                    rooting_at(lists(mst@), split_root(lists(mst@))),
                    subgraph.total_pop as int,
                    params.min_pop as int,
                    params.max_pop as int,
                    mst.len() as int,
                );
            }
            let pick = draw_index(rng, count);
            split_at(subgraph, mst, a, b, buf, proposal, subgraph_map, params, pick);
            Ok(count)
        },
    }
}

} // verus!
