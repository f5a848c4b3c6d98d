//! The first pass of a split: from a root outwards, giving every tree edge a
//! direction.
use crate::buffers::SplitBuffer;
use crate::counting::{lemma_tally_covers, lemma_tally_update, tally};
use crate::graph::lists;
use crate::tree::{
    hangs, is_child, kids, kids_upto, lemma_kids, lemma_neighbour, names, rooted, Rooting,
};
use vstd::prelude::*;

verus! {

/// The buffer holds the rooted tree: for each node its children, in the
/// order of its neighbour list, and its parent.
pub open spec fn holds_rooting(buf: &SplitBuffer, adj: Seq<Seq<usize>>, t: Rooting) -> bool {
    &&& forall|u: int| 0 <= u < adj.len() ==> (#[trigger] buf.succ[u])@ == kids(adj, t, u)
    &&& forall|v: int|
        0 <= v < adj.len() && v != t.root ==> #[trigger] buf.pred[v] == t.parent[v]
}

/// `x` may stand in the queue: it is not handled yet, and its parent is.
pub open spec fn waiting(vis: Seq<bool>, t: Rooting, n: int, x: int) -> bool {
    0 <= x < n && !vis[x] && (x == t.root || vis[t.parent[x]])
}

/// What holds of the handled nodes and the queue between two steps of the
/// pass.
pub open spec fn frontier(adj: Seq<Seq<usize>>, t: Rooting, vis: Seq<bool>, q: Seq<usize>) -> bool {
    let n = adj.len() as int;
    &&& vis.len() >= n
    &&& forall|i: int| 0 <= i < q.len() ==> waiting(vis, t, n, #[trigger] q[i] as int)
    &&& q.no_duplicates()
    &&& forall|v: int| 0 <= v < n && v != t.root && #[trigger] vis[v] ==> vis[t.parent[v]]
    &&& forall|v: int|
        0 <= v < n && v != t.root && vis[#[trigger] t.parent[v]] ==> vis[v] || names(q, v)
    &&& vis[t.root] || names(q, t.root)
}

/// Handling the node at the front of the queue keeps `frontier`.
proof fn lemma_frontier_step(adj: Seq<Seq<usize>>, t: Rooting, vis: Seq<bool>, q: Seq<usize>)
    requires
        rooted(adj, t),
        frontier(adj, t, vis, q),
        q.len() > 0,
    ensures
        waiting(vis, t, adj.len() as int, q[0] as int),
        forall|c: int| is_child(t, q[0] as int, c) ==> !vis[c],
        frontier(
            adj,
            t,
            vis.update(q[0] as int, true),
            q.drop_first() + kids(adj, t, q[0] as int),
        ),
{
    let n = adj.len() as int;
    let next = q[0] as int;
    let ks = kids(adj, t, next);
    let rest = q.drop_first();
    let vis1 = vis.update(next, true);
    let q1 = rest + ks;
    assert(waiting(vis, t, n, q[0] as int));
    lemma_kids(adj, t, next);
    assert forall|i: int| 0 <= i < q1.len()
        implies waiting(vis1, t, n, #[trigger] q1[i] as int) by {
        if i < rest.len() {
            assert(q1[i] == q[i + 1]);
            assert(waiting(vis, t, n, q[i + 1] as int));
            if q[i + 1] != t.root {
                assert(hangs(adj, t, q[i + 1] as int));
            }
        } else {
            let c = ks[i - rest.len()] as int;
            assert(q1[i] == c);
            assert(is_child(t, next, c));
            assert(hangs(adj, t, c));
        }
    }
    assert forall|i: int, j: int| 0 <= i < q1.len() && 0 <= j < q1.len() && i != j implies q1[i]
        != q1[j] by {
        if i < rest.len() && j < rest.len() {
            assert(q1[i] == q[i + 1] && q1[j] == q[j + 1]);
        } else if i >= rest.len() && j >= rest.len() {
            assert(q1[i] == ks[i - rest.len()] && q1[j] == ks[j - rest.len()]);
        } else {
            let (a, b) = if i < rest.len() {
                (i, j)
            } else {
                (j, i)
            };
            assert(q1[a] == q[a + 1]);
            assert(q1[b] == ks[b - rest.len()]);
            assert(waiting(vis, t, n, q[a + 1] as int));
            assert(is_child(t, next, ks[b - rest.len()] as int));
        }
    }
    assert forall|v: int| 0 <= v < n && v != t.root && vis1[#[trigger] t.parent[v]] implies vis1[v]
        || names(q1, v) by {
        assert(hangs(adj, t, v));
        if t.parent[v] == next {
            assert(is_child(t, next, v));
            let i = choose|i: int| 0 <= i < ks.len() && #[trigger] ks[i] == v;
            assert(q1[rest.len() + i] == v);
        } else if !vis[v] {
            let i = choose|i: int| 0 <= i < q.len() && #[trigger] q[i] == v;
            if i > 0 {
                assert(q1[i - 1] == v);
            }
        }
    }
    assert forall|v: int| 0 <= v < n && v != t.root && #[trigger] vis1[v]
        implies vis1[t.parent[v]] by {
        assert(hangs(adj, t, v));
        if v != next {
            assert(vis[v]);
        }
    }
    if !vis1[t.root] {
        let i = choose|i: int| 0 <= i < q.len() && #[trigger] q[i] == t.root;
        assert(q1[i - 1] == t.root);
    }
    assert(q1.no_duplicates());
}

/// Once the queue is empty every node has been handled.
proof fn lemma_frontier_done(
    adj: Seq<Seq<usize>>,
    t: Rooting,
    vis: Seq<bool>,
    q: Seq<usize>,
    x: int,
)
    requires
        rooted(adj, t),
        frontier(adj, t, vis, q),
        q.len() == 0,
        0 <= x < adj.len(),
    ensures
        vis[x],
    decreases t.depth[x],
{
    if x != t.root {
        assert(hangs(adj, t, x));
        lemma_frontier_done(adj, t, vis, q, t.parent[x]);
    }
}

/// Walks the tree `mst` breadth-first from `root` and records, for each
/// node, its children and its parent.
pub(crate) fn root_tree(
    mst: &Vec<Vec<usize>>,
    root: usize,
    buf: &mut SplitBuffer,
    Ghost(t): Ghost<Rooting>,
)
    requires
        rooted(lists(mst@), t),
        t.root == root,
        old(buf).wf(),
        mst.len() <= old(buf).capacity(),
        old(buf).is_clear(),
    ensures
        final(buf).wf(),
        final(buf).capacity() == old(buf).capacity(),
        final(buf).deque@.len() == 0,
        holds_rooting(final(buf), lists(mst@), t),
        final(buf).pop_found@ == old(buf).pop_found@,
        final(buf).tree_pops@ == old(buf).tree_pops@,
        final(buf).balance_nodes@ == old(buf).balance_nodes@,
        final(buf).in_a@ == old(buf).in_a@,
{
    let ghost adj = lists(mst@);
    let n = mst.len();
    let ghost mut w: Seq<int> = Seq::new(n as nat, |i: int| 1int);
    buf.deque.push_back(root);
    proof {
        assert(buf.deque@[0] == root);
        assert forall|v: int| 0 <= v < n && v != t.root
            implies !buf.visited[#[trigger] t.parent[v]] by {
            assert(hangs(adj, t, v));
        }
    }
    while buf.deque.len() > 0
        invariant
            n == mst.len(),
            adj == lists(mst@),
            rooted(adj, t),
            t.root == root,
            buf.wf(),
            buf.capacity() == old(buf).capacity(),
            n <= buf.capacity(),
            buf.pop_found@ == old(buf).pop_found@,
            buf.tree_pops@ == old(buf).tree_pops@,
            buf.balance_nodes@ == old(buf).balance_nodes@,
            buf.in_a@ == old(buf).in_a@,
            w.len() == n,
            forall|v: int|
                0 <= v < n ==> #[trigger] w[v] == if buf.visited[v] {
                    0int
                } else {
                    1int
                },
            frontier(adj, t, buf.visited@, buf.deque@),
            forall|u: int|
                0 <= u < n ==> (#[trigger] buf.succ[u])@ == if buf.visited[u] {
                    kids(adj, t, u)
                } else {
                    Seq::empty()
                },
            forall|v: int|
                0 <= v < n && v != root && (buf.visited[v] || names(buf.deque@, v))
                    ==> #[trigger] buf.pred[v] == t.parent[v],
        decreases tally(w, n as int),
    {
        let ghost q = buf.deque@;
        let ghost vis0 = buf.visited@;
        let next = buf.deque.pop_front().unwrap();
        let ghost rest = buf.deque@;
        proof {
            lemma_frontier_step(adj, t, vis0, q);
            lemma_tally_covers(w, next as int, n as int);
            lemma_tally_update(w, next as int, 0, n as int);
            w = w.update(next as int, 0);
            assert(rest == q.drop_first());
        }
        buf.visited[next] = true;
        let deg = mst[next].len();
        let mut k: usize = 0;
        while k < deg
            invariant
                k <= deg,
                deg == mst[next as int].len(),
                next < n,
                n == mst.len(),
                adj == lists(mst@),
                rooted(adj, t),
                t.root == root,
                buf.wf(),
                buf.capacity() == old(buf).capacity(),
                n <= buf.capacity(),
                buf.pop_found@ == old(buf).pop_found@,
                buf.tree_pops@ == old(buf).tree_pops@,
                buf.balance_nodes@ == old(buf).balance_nodes@,
                buf.in_a@ == old(buf).in_a@,
                vis0.len() == buf.capacity(),
                buf.visited@ == vis0.update(next as int, true),
                waiting(vis0, t, n as int, next as int),
                forall|c: int| is_child(t, next as int, c) ==> !vis0[c],
                buf.deque@ == rest + kids_upto(adj[next as int], t, next as int, k as int),
                buf.succ[next as int]@ == kids_upto(adj[next as int], t, next as int, k as int),
                forall|u: int|
                    0 <= u < n && u != next ==> (#[trigger] buf.succ[u])@ == if vis0[u] {
                        kids(adj, t, u)
                    } else {
                        Seq::empty()
                    },
                forall|v: int|
                    0 <= v < n && v != root && (vis0[v] || names(q, v) || names(
                        kids_upto(adj[next as int], t, next as int, k as int),
                        v,
                    )) ==> #[trigger] buf.pred[v] == t.parent[v],
            decreases deg - k,
        {
            let neighbor = mst[next][k];
            let ghost seen = kids_upto(adj[next as int], t, next as int, k as int);
            proof {
                lemma_neighbour(adj, t, next as int, k as int);
                assert(adj[next as int][k as int] == neighbor);
            }
            if !buf.visited[neighbor] {
                buf.deque.push_back(neighbor);
                buf.succ[next].push(neighbor);
                buf.pred[neighbor] = next;
                proof {
                    assert(is_child(t, next as int, neighbor as int));
                    assert(seen.push(neighbor) == kids_upto(
                        adj[next as int],
                        t,
                        next as int,
                        k as int + 1,
                    ));
                    assert(buf.deque@ == rest + seen.push(neighbor));
                }
            } else {
                proof {
                    assert(!is_child(t, next as int, neighbor as int));
                }
            }
            proof {
                let now = kids_upto(adj[next as int], t, next as int, k as int + 1);
                assert forall|v: int|
                    0 <= v < n && v != root && (vis0[v] || names(q, v) || names(
                        now,
                        v,
                    )) implies #[trigger] buf.pred[v] == t.parent[v] by {
                    if v != neighbor {
                        if names(now, v) {
                            let i = choose|i: int| 0 <= i < now.len() && #[trigger] now[i] == v;
                            assert(seen[i] == v);
                        }
                    } else if !is_child(t, next as int, neighbor as int) {
                        assert(now == seen);
                    }
                }
            }
            k += 1;
        }
        proof {
            let ks = kids(adj, t, next as int);
            assert(buf.deque@ == q.drop_first() + ks);
            assert forall|v: int|
                0 <= v < n && v != root && (buf.visited[v] || names(
                    buf.deque@,
                    v,
                )) implies #[trigger] buf.pred[v] == t.parent[v] by {
                if !vis0[v] && v != next {
                    let i = choose|i: int|
                        0 <= i < buf.deque@.len() && #[trigger] buf.deque@[i] == v;
                    if i < rest.len() {
                        assert(q[i + 1] == v);
                    } else {
                        assert(ks[i - rest.len()] == v);
                    }
                } else if v == next {
                    assert(q[0] == v);
                }
            }
        }
    }
    proof {
        assert forall|u: int| 0 <= u < n implies (#[trigger] buf.succ[u])@ == kids(adj, t, u) by {
            lemma_frontier_done(adj, t, buf.visited@, buf.deque@, u);
        }
        assert forall|v: int| 0 <= v < n && v != root implies #[trigger] buf.pred[v]
            == t.parent[v] by {
            lemma_frontier_done(adj, t, buf.visited@, buf.deque@, v);
        }
    }
}

} // verus!
