//! The seam between two districts: the graph edges that cross from one to
//! the other.
use crate::graph::{degree_sum, occurrences};
use crate::tree::names;
use vstd::prelude::*;

verus! {

/// How many of the first `k` entries of `nb` name a node that `a` lists.
pub open spec fn hits(nb: Seq<usize>, a: Seq<usize>, k: int) -> int
    decreases k,
{
    if k <= 0 {
        0
    } else {
        hits(nb, a, k - 1) + if names(a, nb[k - 1] as int) {
            1int
        } else {
            0int
        }
    }
}

/// The crossing entries in the neighbour lists of the first `j` nodes that
/// `b` lists.
pub open spec fn seam_upto(adj: Seq<Seq<usize>>, a: Seq<usize>, b: Seq<usize>, j: int) -> int
    decreases j,
{
    if j <= 0 {
        0
    } else {
        seam_upto(adj, a, b, j - 1) + hits(
            adj[b[j - 1] as int],
            a,
            adj[b[j - 1] as int].len() as int,
        )
    }
}

/// The seam length: for every node that `b` lists, as often as listed, the
/// entries of its neighbour list that name a node listed in `a`.
pub open spec fn seam_count(adj: Seq<Seq<usize>>, a: Seq<usize>, b: Seq<usize>) -> int {
    seam_upto(adj, a, b, b.len() as int)
}

/// The nodes that `s` lists.
pub open spec fn node_set(s: Seq<usize>) -> Set<int> {
    Set::new(|x: int| names(s, x))
}

/// How often the edge between `u` and `v` is listed: at `u`, or where
/// `flip` is set at `v`.
pub open spec fn cell(adj: Seq<Seq<usize>>, u: int, v: int, flip: bool) -> int {
    if flip {
        occurrences(adj[v], u, adj[v].len() as int)
    } else {
        occurrences(adj[u], v, adj[u].len() as int)
    }
}

/// The listings of edges between `u` and the nodes of `a` below `j`.
pub open spec fn inner(adj: Seq<Seq<usize>>, a: Set<int>, u: int, j: int, flip: bool) -> int
    decreases j,
{
    if j <= 0 {
        0
    } else {
        inner(adj, a, u, j - 1, flip) + if a.contains(j - 1) {
            cell(adj, u, j - 1, flip)
        } else {
            0
        }
    }
}

/// The listings of edges between the nodes of `b` below `i` and the nodes
/// of `a` below `j`.
pub open spec fn outer(
    adj: Seq<Seq<usize>>,
    a: Set<int>,
    b: Set<int>,
    i: int,
    j: int,
    flip: bool,
) -> int
    decreases i,
{
    if i <= 0 {
        0
    } else {
        outer(adj, a, b, i - 1, j, flip) + if b.contains(i - 1) {
            inner(adj, a, i - 1, j, flip)
        } else {
            0
        }
    }
}

/// The edges between the sets `a` and `b` of nodes, each counted as often
/// as the neighbour lists of `b`'s nodes name it.
pub open spec fn crossing(adj: Seq<Seq<usize>>, a: Set<int>, b: Set<int>) -> int {
    outer(adj, a, b, adj.len() as int, adj.len() as int, false)
}

/// Among `k` entries no more than `k` name a listed node.
pub proof fn lemma_hits_bounds(nb: Seq<usize>, a: Seq<usize>, k: int)
    requires
        0 <= k,
    ensures
        0 <= hits(nb, a, k) <= k,
    decreases k,
{
    if k > 0 {
        lemma_hits_bounds(nb, a, k - 1);
    }
}

/// More entries name no fewer listed nodes.
pub proof fn lemma_hits_grows(nb: Seq<usize>, a: Seq<usize>, i: int, j: int)
    requires
        0 <= i <= j,
    ensures
        hits(nb, a, i) <= hits(nb, a, j),
    decreases j,
{
    if i < j {
        lemma_hits_grows(nb, a, i, j - 1);
    }
}

/// The seam over more listed nodes is no shorter.
pub proof fn lemma_seam_grows(adj: Seq<Seq<usize>>, a: Seq<usize>, b: Seq<usize>, i: int, j: int)
    requires
        0 <= i <= j,
    ensures
        0 <= seam_upto(adj, a, b, i) <= seam_upto(adj, a, b, j),
    decreases j,
{
    if i < j {
        lemma_seam_grows(adj, a, b, i, j - 1);
        lemma_hits_bounds(adj[b[j - 1] as int], a, adj[b[j - 1] as int].len() as int);
    } else if i > 0 {
        lemma_seam_grows(adj, a, b, i - 1, i - 1);
        lemma_hits_bounds(adj[b[i - 1] as int], a, adj[b[i - 1] as int].len() as int);
    }
}

/// One more entry in a neighbour list adds one listing where it names a
/// node of `a` below `j`.
proof fn lemma_row_step(nb: Seq<usize>, a: Set<int>, k: int, j: int)
    requires
        0 < k <= nb.len(),
        0 <= j,
    ensures
        row(nb, a, k, j) == row(nb, a, k - 1, j) + if nb[k - 1] < j && a.contains(
            nb[k - 1] as int,
        ) {
            1int
        } else {
            0int
        },
    decreases j,
{
    if j > 0 {
        lemma_row_step(nb, a, k, j - 1);
    }
}

/// The listings, among the first `k` entries of `nb`, of the nodes of `a`
/// below `j`.
pub open spec fn row(nb: Seq<usize>, a: Set<int>, k: int, j: int) -> int
    decreases j,
{
    if j <= 0 {
        0
    } else {
        row(nb, a, k, j - 1) + if a.contains(j - 1) {
            occurrences(nb, j - 1, k)
        } else {
            0
        }
    }
}

/// No entries, no listings.
proof fn lemma_row_none(nb: Seq<usize>, a: Set<int>, j: int)
    ensures
        row(nb, a, 0, j) == 0,
    decreases j,
{
    if j > 0 {
        lemma_row_none(nb, a, j - 1);
    }
}

/// The entries that name a listed node are the listings of the listed
/// nodes.
proof fn lemma_hits_row(nb: Seq<usize>, a: Seq<usize>, k: int, n: int)
    requires
        0 <= k <= nb.len(),
        0 <= n,
        forall|i: int| 0 <= i < nb.len() ==> #[trigger] nb[i] < n,
    ensures
        hits(nb, a, k) == row(nb, node_set(a), k, n),
    decreases k,
{
    if k > 0 {
        lemma_hits_row(nb, a, k - 1, n);
        lemma_row_step(nb, node_set(a), k, n);
    } else {
        lemma_row_none(nb, node_set(a), n);
    }
}

/// The listings in the whole neighbour list of `u` are its row of the table.
proof fn lemma_row_inner(adj: Seq<Seq<usize>>, a: Set<int>, u: int, j: int)
    ensures
        row(adj[u], a, adj[u].len() as int, j) == inner(adj, a, u, j, false),
    decreases j,
{
    if j > 0 {
        lemma_row_inner(adj, a, u, j - 1);
    }
}

/// Those of the first `m` entries of `b` that are below `i`, in the order
/// of `b`.
pub open spec fn low(b: Seq<usize>, i: int, m: int) -> Seq<usize>
    decreases m,
{
    if m <= 0 {
        Seq::empty()
    } else {
        let rest = low(b, i, m - 1);
        if b[m - 1] < i {
            rest.push(b[m - 1])
        } else {
            rest
        }
    }
}

/// No node is below zero.
proof fn lemma_low_none(b: Seq<usize>, m: int)
    ensures
        low(b, 0, m).len() == 0,
    decreases m,
{
    if m > 0 {
        lemma_low_none(b, m - 1);
    }
}

/// A bound above every node leaves the list as it is.
proof fn lemma_low_all(b: Seq<usize>, n: int, m: int)
    requires
        0 <= m <= b.len(),
        forall|k: int| 0 <= k < b.len() ==> #[trigger] b[k] < n,
    ensures
        low(b, n, m) == b.take(m),
    decreases m,
{
    if m > 0 {
        lemma_low_all(b, n, m - 1);
        assert(b.take(m - 1).push(b[m - 1]) =~= b.take(m));
    } else {
        assert(b.take(0) =~= Seq::<usize>::empty());
    }
}

/// The seam over the first `j` listed nodes depends on no later entry.
proof fn lemma_seam_prefix(
    adj: Seq<Seq<usize>>,
    a: Seq<usize>,
    b: Seq<usize>,
    c: Seq<usize>,
    j: int,
)
    requires
        0 <= j <= b.len(),
        j <= c.len(),
        forall|k: int| 0 <= k < j ==> b[k] == c[k],
    ensures
        seam_upto(adj, a, b, j) == seam_upto(adj, a, c, j),
    decreases j,
{
    if j > 0 {
        lemma_seam_prefix(adj, a, b, c, j - 1);
    }
}

/// Raising the bound by one adds what node `i - 1` brings, where `b` lists
/// it among its first `m` entries.
proof fn lemma_seam_low(adj: Seq<Seq<usize>>, a: Seq<usize>, b: Seq<usize>, i: int, m: int)
    requires
        b.no_duplicates(),
        0 < i,
        0 <= m <= b.len(),
    ensures
        seam_count(adj, a, low(b, i, m)) == seam_count(adj, a, low(b, i - 1, m)) + if names(
            b.take(m),
            i - 1,
        ) {
            hits(adj[i - 1], a, adj[i - 1].len() as int)
        } else {
            0
        },
    decreases m,
{
    if m > 0 {
        lemma_seam_low(adj, a, b, i, m - 1);
        let last = b[m - 1];
        let wide = low(b, i, m - 1);
        let tight = low(b, i - 1, m - 1);
        if last < i {
            lemma_seam_prefix(adj, a, wide.push(last), wide, wide.len() as int);
        }
        if last < i - 1 {
            lemma_seam_prefix(adj, a, tight.push(last), tight, tight.len() as int);
        }
        if names(b.take(m - 1), i - 1) {
            let k = choose|k: int| 0 <= k < m - 1 && #[trigger] b.take(m - 1)[k] == i - 1;
            assert(b.take(m)[k] == i - 1);
            assert(b[k] != b[m - 1]);
        }
        if names(b.take(m), i - 1) && last != i - 1 {
            let k = choose|k: int| 0 <= k < m && #[trigger] b.take(m)[k] == i - 1;
            assert(b.take(m - 1)[k] == i - 1);
        }
        if last == i - 1 {
            assert(b.take(m)[m - 1] == i - 1);
        }
    }
}

/// The seam over the nodes of `b` below `i` is the crossing of the two
/// sets in the first `i` rows.
proof fn lemma_listed(adj: Seq<Seq<usize>>, a: Seq<usize>, b: Seq<usize>, i: int)
    requires
        forall|u: int, k: int|
            0 <= u < adj.len() && 0 <= k < adj[u].len() ==> #[trigger] adj[u][k] < adj.len(),
        b.no_duplicates(),
        0 <= i <= adj.len(),
    ensures
        seam_count(adj, a, low(b, i, b.len() as int)) == outer(
            adj,
            node_set(a),
            node_set(b),
            i,
            adj.len() as int,
            false,
        ),
    decreases i,
{
    let n = adj.len() as int;
    if i == 0 {
        lemma_low_none(b, b.len() as int);
    } else {
        lemma_listed(adj, a, b, i - 1);
        lemma_seam_low(adj, a, b, i, b.len() as int);
        assert(b.take(b.len() as int) =~= b);
        lemma_hits_row(adj[i - 1], a, adj[i - 1].len() as int, n);
        lemma_row_inner(adj, node_set(a), i - 1, n);
    }
}

/// Over a list `b` without repetitions the seam depends on the nodes that
/// the two lists hold and on nothing else of them: it is the crossing of the
/// two sets.
pub proof fn lemma_seam_by_sets(adj: Seq<Seq<usize>>, a: Seq<usize>, b: Seq<usize>)
    requires
        forall|u: int, k: int|
            0 <= u < adj.len() && 0 <= k < adj[u].len() ==> #[trigger] adj[u][k] < adj.len(),
        forall|m: int| 0 <= m < b.len() ==> #[trigger] b[m] < adj.len(),
        b.no_duplicates(),
    ensures
        seam_count(adj, a, b) == crossing(adj, node_set(a), node_set(b)),
{
    lemma_listed(adj, a, b, adj.len() as int);
    lemma_low_all(b, adj.len() as int, b.len() as int);
    assert(b.take(b.len() as int) =~= b);
}

/// Where every edge is listed alike from both ends, it does not matter at
/// which end the listings are counted.
proof fn lemma_flip(adj: Seq<Seq<usize>>, a: Set<int>, b: Set<int>, i: int, j: int)
    requires
        0 <= i <= adj.len(),
        0 <= j <= adj.len(),
        forall|u: int, v: int|
            0 <= u < adj.len() && 0 <= v < adj.len() ==> #[trigger] occurrences(
                adj[u],
                v,
                adj[u].len() as int,
            ) == occurrences(adj[v], u, adj[v].len() as int),
    ensures
        outer(adj, a, b, i, j, false) == outer(adj, a, b, i, j, true),
    decreases i,
{
    if i > 0 {
        lemma_flip(adj, a, b, i - 1, j);
        lemma_flip_inner(adj, a, i - 1, j);
    }
}

/// `lemma_flip` for one row.
proof fn lemma_flip_inner(adj: Seq<Seq<usize>>, a: Set<int>, u: int, j: int)
    requires
        0 <= u < adj.len(),
        0 <= j <= adj.len(),
        forall|u: int, v: int|
            0 <= u < adj.len() && 0 <= v < adj.len() ==> #[trigger] occurrences(
                adj[u],
                v,
                adj[u].len() as int,
            ) == occurrences(adj[v], u, adj[v].len() as int),
    ensures
        inner(adj, a, u, j, false) == inner(adj, a, u, j, true),
    decreases j,
{
    if j > 0 {
        lemma_flip_inner(adj, a, u, j - 1);
        assert(occurrences(adj[u], j - 1, adj[u].len() as int) == occurrences(
            adj[j - 1],
            u,
            adj[j - 1].len() as int,
        ));
    }
}

/// One more row of the table adds, column by column, its cells.
proof fn lemma_column(adj: Seq<Seq<usize>>, a: Set<int>, b: Set<int>, i: int, j: int)
    requires
        0 < i,
        0 <= j,
    ensures
        outer(adj, b, a, j, i, false) == outer(adj, b, a, j, i - 1, false) + if b.contains(i - 1) {
            inner(adj, a, i - 1, j, true)
        } else {
            0
        },
    decreases j,
{
    if j > 0 {
        lemma_column(adj, a, b, i, j - 1);
    }
}

/// A table without columns sums to zero.
proof fn lemma_outer_empty(adj: Seq<Seq<usize>>, a: Set<int>, b: Set<int>, i: int)
    ensures
        outer(adj, a, b, i, 0, false) == 0,
    decreases i,
{
    if i > 0 {
        lemma_outer_empty(adj, a, b, i - 1);
    }
}

/// The table of listings sums the same by rows and by columns.
proof fn lemma_swap(adj: Seq<Seq<usize>>, a: Set<int>, b: Set<int>, i: int, j: int)
    requires
        0 <= i,
        0 <= j,
    ensures
        outer(adj, a, b, i, j, true) == outer(adj, b, a, j, i, false),
    decreases i,
{
    if i > 0 {
        lemma_swap(adj, a, b, i - 1, j);
        lemma_column(adj, a, b, i, j);
    } else {
        lemma_outer_empty(adj, b, a, j);
    }
}

/// Over lists without repetitions, in a graph that lists every edge alike
/// from both ends, the seam is the same whichever district is called `a`.
pub proof fn lemma_seam_symmetric(adj: Seq<Seq<usize>>, a: Seq<usize>, b: Seq<usize>)
    requires
        forall|u: int, k: int|
            0 <= u < adj.len() && 0 <= k < adj[u].len() ==> #[trigger] adj[u][k] < adj.len(),
        forall|u: int, v: int|
            0 <= u < adj.len() && 0 <= v < adj.len() ==> #[trigger] occurrences(
                adj[u],
                v,
                adj[u].len() as int,
            ) == occurrences(adj[v], u, adj[v].len() as int),
        forall|m: int| 0 <= m < a.len() ==> #[trigger] a[m] < adj.len(),
        forall|m: int| 0 <= m < b.len() ==> #[trigger] b[m] < adj.len(),
        a.no_duplicates(),
        b.no_duplicates(),
    ensures
        seam_count(adj, a, b) == seam_count(adj, b, a),
{
    let n = adj.len() as int;
    lemma_seam_by_sets(adj, a, b);
    lemma_seam_by_sets(adj, b, a);
    lemma_flip(adj, node_set(a), node_set(b), n, n);
    lemma_swap(adj, node_set(a), node_set(b), n, n);
}

/// The entries of a neighbour list that name a listed node are no more than
/// the list has.
pub proof fn lemma_seam_fits(adj: Seq<Seq<usize>>, a: Seq<usize>, b: Seq<usize>)
    requires
        forall|u: int, k: int|
            0 <= u < adj.len() && 0 <= k < adj[u].len() ==> #[trigger] adj[u][k] < adj.len(),
        forall|m: int| 0 <= m < b.len() ==> #[trigger] b[m] < adj.len(),
        b.no_duplicates(),
    ensures
        seam_count(adj, a, b) <= degree_sum(adj, adj.len() as int),
{
    lemma_seam_by_sets(adj, a, b);
    lemma_outer_degrees(adj, node_set(a), node_set(b), adj.len() as int, a);
}

/// The listings in the first `i` rows are no more than the entries of the
/// first `i` neighbour lists.
proof fn lemma_outer_degrees(
    adj: Seq<Seq<usize>>,
    a: Set<int>,
    b: Set<int>,
    i: int,
    list: Seq<usize>,
)
    requires
        0 <= i <= adj.len(),
        a == node_set(list),
        forall|u: int, k: int|
            0 <= u < adj.len() && 0 <= k < adj[u].len() ==> #[trigger] adj[u][k] < adj.len(),
    ensures
        0 <= outer(adj, a, b, i, adj.len() as int, false) <= degree_sum(adj, i),
    decreases i,
{
    if i > 0 {
        lemma_outer_degrees(adj, a, b, i - 1, list);
        lemma_row_inner(adj, a, i - 1, adj.len() as int);
        lemma_hits_row(adj[i - 1], list, adj[i - 1].len() as int, adj.len() as int);
        lemma_hits_bounds(adj[i - 1], list, adj[i - 1].len() as int);
    }
}

} // verus!
