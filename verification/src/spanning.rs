//! Deciding whether a list of neighbour lists is a spanning tree.
use crate::counting::{lemma_tally_covers, lemma_tally_update, tally};
use crate::graph::lists;
use crate::tree::{
    hangs, is_child, is_spanning_tree, lemma_rooting_at, linked, names, rooted, rooting_at,
    Rooting,
};
use vstd::prelude::*;

verus! {

/// Every entry of every list is a node.
pub open spec fn in_range(adj: Seq<Seq<usize>>) -> bool {
    forall|u: int, k: int|
        0 <= u < adj.len() && 0 <= k < adj[u].len() ==> #[trigger] adj[u][k] < adj.len()
}

/// The rooting that a vector of parents and a sequence of depths stand for,
/// with node 0 as the root.
pub open spec fn as_rooting(parent: Seq<usize>, depth: Seq<nat>) -> Rooting {
    Rooting { root: 0, parent: Seq::new(parent.len(), |i: int| parent[i] as int), depth }
}

/// What a walk from node 0 has found of a tree: each node seen hangs from the
/// parent noted for it.
pub open spec fn spans(
    adj: Seq<Seq<usize>>,
    parent: Seq<usize>,
    seen: Seq<bool>,
    depth: Seq<nat>,
) -> bool {
    let n = adj.len() as int;
    &&& parent.len() == n
    &&& seen.len() == n
    &&& depth.len() == n
    &&& parent[0] == 0
    &&& depth[0] == 0
    &&& seen[0]
    &&& forall|v: int| 0 <= v < n ==> #[trigger] parent[v] < n
    &&& forall|v: int|
        0 < v < n && #[trigger] seen[v] ==> names(adj[parent[v] as int], v) && depth[v]
            == depth[parent[v] as int] + 1 && seen[parent[v] as int]
}

/// In a tree, the walk notes for each node seen the parent that the rooting
/// at node 0 gives it, and has seen that parent.
pub open spec fn follows(t: Rooting, parent: Seq<usize>, seen: Seq<bool>) -> bool {
    forall|v: int|
        0 < v < parent.len() && #[trigger] seen[v] ==> parent[v] == t.parent[v]
            && seen[t.parent[v]]
}

/// Whether every entry of every list is a node.
fn within_range(mst: &Vec<Vec<usize>>) -> (ok: bool)
    ensures
        ok == in_range(lists(mst@)),
{
    let n = mst.len();
    let ghost adj = lists(mst@);
    let mut u: usize = 0;
    while u < n
        invariant
            u <= n,
            n == mst.len(),
            adj == lists(mst@),
            forall|a: int, k: int|
                0 <= a < u && 0 <= k < adj[a].len() ==> #[trigger] adj[a][k] < adj.len(),
        decreases n - u,
    {
        let deg = mst[u].len();
        let mut k: usize = 0;
        while k < deg
            invariant
                k <= deg,
                u < n,
                n == mst.len(),
                adj == lists(mst@),
                deg == adj[u as int].len(),
                forall|j: int| 0 <= j < k ==> #[trigger] adj[u as int][j] < n,
            decreases deg - k,
        {
            if mst[u][k] >= n {
                proof {
                    assert(adj[u as int][k as int] >= adj.len());
                }
                return false;
            }
            k += 1;
        }
        u += 1;
    }
    true
}

/// Once the walk is over, a tree has been seen whole.
proof fn lemma_walk_done(
    adj: Seq<Seq<usize>>,
    t: Rooting,
    seen: Seq<bool>,
    order: Seq<usize>,
    x: int,
)
    requires
        rooted(adj, t),
        t.root == 0,
        seen.len() == adj.len(),
        seen[0],
        forall|v: int| 0 <= v < adj.len() && #[trigger] seen[v] ==> names(order, v),
        forall|i: int, c: int|
            0 <= i < order.len() && is_child(t, #[trigger] order[i] as int, c)
                ==> #[trigger] seen[c],
        0 <= x < adj.len(),
    ensures
        seen[x],
    decreases t.depth[x],
{
    if x != 0 {
        assert(hangs(adj, t, x));
        let p = t.parent[x];
        lemma_walk_done(adj, t, seen, order, p);
        let i = choose|i: int| 0 <= i < order.len() && #[trigger] order[i] == p;
        assert(is_child(t, order[i] as int, x));
    }
}

/// Walks the lists breadth-first from node 0 and notes for each node met
/// the node it was met from.
fn walk(mst: &Vec<Vec<usize>>) -> (out: (Vec<usize>, Vec<bool>, Ghost<Seq<nat>>))
    requires
        mst.len() > 0,
        in_range(lists(mst@)),
    ensures
        spans(lists(mst@), out.0@, out.1@, out.2@),
        is_spanning_tree(lists(mst@)) ==> follows(
            rooting_at(lists(mst@), 0),
            out.0@,
            out.1@,
        ) && forall|v: int| 0 <= v < mst.len() ==> #[trigger] out.1@[v],
{
    let n = mst.len();
    let ghost adj = lists(mst@);
    let ghost tree = is_spanning_tree(adj);
    let ghost t = rooting_at(adj, 0);
    proof {
        if tree {
            lemma_rooting_at(adj, 0);
        }
    }
    let mut parent: Vec<usize> = Vec::with_capacity(n);
    let mut seen: Vec<bool> = Vec::with_capacity(n);
    let mut i: usize = 0;
    while i < n
        invariant
            i <= n,
            parent.len() == i,
            seen.len() == i,
            forall|v: int| 0 <= v < i ==> #[trigger] parent[v] == 0,
            forall|v: int| 0 <= v < i ==> !#[trigger] seen[v],
        decreases n - i,
    {
        parent.push(0);
        seen.push(false);
        i += 1;
    }
    let ghost mut depth: Seq<nat> = Seq::new(n as nat, |i: int| 0nat);
    let ghost mut w: Seq<int> = Seq::new(n as nat, |i: int| 1int);
    let mut order: Vec<usize> = Vec::with_capacity(n);
    seen[0] = true;
    order.push(0);
    proof {
        w = w.update(0, 0);
        assert(order@[0] == 0);
    }
    let mut head: usize = 0;
    while head < order.len()
        invariant
            n == mst.len(),
            adj == lists(mst@),
            in_range(adj),
            tree == is_spanning_tree(adj),
            t == rooting_at(adj, 0),
            tree ==> rooted(adj, t) && t.root == 0,
            head <= order.len(),
            spans(adj, parent@, seen@, depth),
            w.len() == n,
            forall|v: int|
                0 <= v < n ==> #[trigger] w[v] == if seen[v] {
                    0int
                } else {
                    1int
                },
            forall|i: int| 0 <= i < order.len()
                ==> #[trigger] order[i] < n && seen[order[i] as int],
            forall|v: int| 0 <= v < n && #[trigger] seen[v] ==> names(order@, v),
            tree ==> follows(t, parent@, seen@),
            tree ==> forall|i: int, c: int|
                0 <= i < head && is_child(t, #[trigger] order[i] as int, c) ==> #[trigger] seen[c],
        decreases 2 * tally(w, n as int) + order.len() - head,
    {
        let u = order[head];
        let deg = mst[u].len();
        let ghost w0 = w;
        let ghost len0 = order.len();
        proof {
            lemma_tally_covers(w, 0, n as int);
        }
        let mut k: usize = 0;
        while k < deg
            invariant
                k <= deg,
                n == mst.len(),
                adj == lists(mst@),
                in_range(adj),
                tree == is_spanning_tree(adj),
                t == rooting_at(adj, 0),
                tree ==> rooted(adj, t) && t.root == 0,
                head < order.len(),
                u == order[head as int],
                u < n,
                deg == adj[u as int].len(),
                spans(adj, parent@, seen@, depth),
                w.len() == n,
                forall|v: int|
                    0 <= v < n ==> #[trigger] w[v] == if seen[v] {
                        0int
                    } else {
                        1int
                    },
                0 <= tally(w, n as int),
                2 * tally(w, n as int) + order.len() <= 2 * tally(w0, n as int) + len0,
                forall|i: int|
                    0 <= i < order.len() ==> #[trigger] order[i] < n && seen[order[i] as int],
                forall|v: int| 0 <= v < n && #[trigger] seen[v] ==> names(order@, v),
                tree ==> follows(t, parent@, seen@),
                tree ==> forall|i: int, c: int|
                    0 <= i < head && is_child(t, #[trigger] order[i] as int, c)
                        ==> #[trigger] seen[c],
                forall|j: int| 0 <= j < k ==> seen[#[trigger] adj[u as int][j] as int],
            decreases deg - k,
        {
            let v = mst[u][k];
            proof {
                assert(adj[u as int][k as int] == v);
            }
            if !seen[v] {
                let ghost seen0 = seen@;
                let ghost order0 = order@;
                proof {
                    lemma_tally_covers(w, v as int, n as int);
                    lemma_tally_update(w, v as int, 0, n as int);
                    w = w.update(v as int, 0);
                    depth = depth.update(v as int, depth[u as int] + 1);
                    if tree {
                        assert(linked(t, u as int, adj[u as int][k as int] as int));
                        if u != 0 {
                            assert(seen0[t.parent[u as int]]);
                        }
                    }
                }
                seen[v] = true;
                parent[v] = u;
                order.push(v);
                proof {
                    assert forall|x: int| 0 <= x < n && #[trigger] seen[x] implies names(
                        order@,
                        x,
                    ) by {
                        if x == v {
                            assert(order@[order0.len() as int] == x);
                        } else {
                            let i = choose|i: int|
                                0 <= i < order0.len() && #[trigger] order0[i] == x;
                            assert(order@[i] == x);
                        }
                    }
                    assert forall|x: int| 0 < x < n && #[trigger] seen[x] implies names(
                        adj[parent[x] as int],
                        x,
                    ) && depth[x] == depth[parent[x] as int] + 1 && seen[parent[x] as int] by {
                        if x != v {
                            assert(seen0[x]);
                        } else {
                            assert(seen0[u as int]);
                        }
                    }
                    if tree {
                        assert forall|x: int| 0 < x < n && #[trigger] seen[x] implies parent[x]
                            == t.parent[x] && seen[t.parent[x]] by {
                            if x != v {
                                assert(seen0[x]);
                            }
                        }
                        assert forall|i: int, c: int|
                            0 <= i < head && is_child(
                                t,
                                #[trigger] order[i] as int,
                                c,
                            ) implies #[trigger] seen[c] by {
                            assert(order0[i] == order@[i]);
                            assert(seen0[c]);
                        }
                    }
                    assert forall|j: int| 0 <= j < k + 1
                        implies seen[#[trigger] adj[u as int][j] as int] by {
                        if j < k {
                            assert(seen0[adj[u as int][j] as int]);
                        }
                    }
                }
            }
            k += 1;
        }
        proof {
            if tree {
                assert forall|i: int, c: int|
                    0 <= i < head + 1 && is_child(
                        t,
                        #[trigger] order[i] as int,
                        c,
                    ) implies #[trigger] seen[c] by {
                    if i == head {
                        assert(hangs(adj, t, c));
                        let j = choose|j: int|
                            0 <= j < adj[u as int].len() && #[trigger] adj[u as int][j] == c;
                        assert(seen[adj[u as int][j] as int]);
                    }
                }
            }
        }
        head += 1;
    }
    proof {
        if tree {
            assert forall|v: int| 0 <= v < n implies #[trigger] seen@[v] by {
                lemma_walk_done(adj, t, seen@, order@, v);
            }
        }
    }
    (parent, seen, Ghost(depth))
}

/// What the lists must meet, beside `spans`, for the parents to root them.
pub open spec fn agrees(adj: Seq<Seq<usize>>, parent: Seq<usize>) -> bool {
    let n = adj.len() as int;
    &&& forall|u: int, k: int|
        0 <= u < n && 0 <= k < adj[u].len() ==> tied(parent, u, #[trigger] adj[u][k] as int)
    &&& forall|u: int| 0 <= u < n ==> (#[trigger] adj[u]).no_duplicates()
    &&& forall|u: int| 0 < u < n ==> names(#[trigger] adj[u], parent[u] as int)
}

/// One of `u` and `v` is noted as the parent of the other.
pub open spec fn tied(parent: Seq<usize>, u: int, v: int) -> bool {
    (v != 0 && parent[v] == u) || (u != 0 && parent[u] == v)
}

/// Whether every list names its node's parent, names parents and children
/// only, and names none twice.
fn lists_agree(mst: &Vec<Vec<usize>>, parent: &Vec<usize>) -> (ok: bool)
    requires
        mst.len() > 0,
        in_range(lists(mst@)),
        parent.len() == mst.len(),
    ensures
        ok == agrees(lists(mst@), parent@),
{
    let n = mst.len();
    let ghost adj = lists(mst@);
    let mut stamp: Vec<usize> = Vec::with_capacity(n);
    let mut i: usize = 0;
    while i < n
        invariant
            i <= n,
            stamp.len() == i,
            forall|v: int| 0 <= v < i ==> #[trigger] stamp[v] == n,
        decreases n - i,
    {
        stamp.push(n);
        i += 1;
    }
    let mut u: usize = 0;
    while u < n
        invariant
            u <= n,
            n == mst.len(),
            n == parent.len(),
            adj == lists(mst@),
            in_range(adj),
            stamp.len() == n,
            forall|v: int| 0 <= v < n ==> #[trigger] stamp[v] == n || stamp[v] < u,
            forall|a: int, k: int|
                0 <= a < u && 0 <= k < adj[a].len()
                    ==> tied(parent@, a, #[trigger] adj[a][k] as int),
            forall|a: int| 0 <= a < u ==> (#[trigger] adj[a]).no_duplicates(),
            forall|a: int| 0 < a < u ==> names(#[trigger] adj[a], parent[a] as int),
        decreases n - u,
    {
        let deg = mst[u].len();
        let mut found = u == 0;
        let mut k: usize = 0;
        while k < deg
            invariant
                k <= deg,
                u < n,
                n == mst.len(),
                n == parent.len(),
                adj == lists(mst@),
                in_range(adj),
                deg == adj[u as int].len(),
                stamp.len() == n,
                forall|v: int|
                    0 <= v < n ==> (#[trigger] stamp[v] == u <==> names(
                        adj[u as int].take(k as int),
                        v,
                    )),
                forall|v: int| 0 <= v < n ==> #[trigger] stamp[v] == n || stamp[v] <= u,
                forall|j: int| 0 <= j < k
                    ==> tied(parent@, u as int, #[trigger] adj[u as int][j] as int),
                adj[u as int].take(k as int).no_duplicates(),
                found == (u == 0 || names(adj[u as int].take(k as int), parent[u as int] as int)),
            decreases deg - k,
        {
            let v = mst[u][k];
            let ghost before = adj[u as int].take(k as int);
            let ghost now = adj[u as int].take(k as int + 1);
            proof {
                assert(adj[u as int][k as int] == v);
                assert(now == before.push(v));
            }
            if stamp[v] == u {
                proof {
                    let j = choose|j: int| 0 <= j < before.len() && #[trigger] before[j] == v;
                    assert(adj[u as int][j] == adj[u as int][k as int]);
                }
                return false;
            }
            if !((v != 0 && parent[v] == u) || (u != 0 && parent[u] == v)) {
                proof {
                    assert(!tied(parent@, u as int, adj[u as int][k as int] as int));
                }
                return false;
            }
            stamp[v] = u;
            if u != 0 && parent[u] == v {
                found = true;
            }
            proof {
                assert forall|x: int| 0 <= x < n implies (#[trigger] stamp[x] == u <==> names(
                    now,
                    x,
                )) by {
                    if x == v {
                        assert(now[k as int] == x);
                    } else {
                        if names(before, x) {
                            let j = choose|j: int|
                                0 <= j < before.len() && #[trigger] before[j] == x;
                            assert(now[j] == x);
                        }
                        if names(now, x) {
                            let j = choose|j: int| 0 <= j < now.len() && #[trigger] now[j] == x;
                            assert(before[j] == x);
                        }
                    }
                }
                assert forall|a: int, b: int|
                    0 <= a < now.len() && 0 <= b < now.len() && a != b implies now[a] != now[b] by {
                    if a == k {
                        assert(before[b] == now[b]);
                        assert(!names(before, v as int));
                    } else if b == k {
                        assert(before[a] == now[a]);
                        assert(!names(before, v as int));
                    } else {
                        assert(before[a] == now[a] && before[b] == now[b]);
                    }
                }
                if u != 0 {
                    let p = parent[u as int] as int;
                    if names(before, p) {
                        let j = choose|j: int| 0 <= j < before.len() && #[trigger] before[j] == p;
                        assert(now[j] == p);
                    }
                    if names(now, p) && p != v {
                        let j = choose|j: int| 0 <= j < now.len() && #[trigger] now[j] == p;
                        assert(before[j] == p);
                    }
                    if p == v {
                        assert(now[k as int] == p);
                    }
                }
            }
            k += 1;
        }
        proof {
            assert(adj[u as int].take(deg as int) =~= adj[u as int]);
        }
        if !found {
            return false;
        }
        u += 1;
    }
    true
}

/// Whether `mst` is a spanning tree of the nodes `0..mst.len()`.
pub fn is_tree(mst: &Vec<Vec<usize>>) -> (ok: bool)
    ensures
        ok == is_spanning_tree(lists(mst@)),
{
    let n = mst.len();
    let ghost adj = lists(mst@);
    if n == 0 {
        return false;
    }
    if !within_range(mst) {
        return false;
    }
    let (parent, seen, Ghost(depth)) = walk(mst);
    let ghost mine = as_rooting(parent@, depth);
    let mut v: usize = 0;
    while v < n
        invariant
            v <= n,
            n == seen.len(),
            adj == lists(mst@),
            forall|x: int| 0 <= x < v ==> #[trigger] seen[x],
            is_spanning_tree(adj) ==> forall|x: int| 0 <= x < n ==> #[trigger] seen@[x],
        decreases n - v,
    {
        if !seen[v] {
            return false;
        }
        v += 1;
    }
    let ok = lists_agree(mst, &parent);
    proof {
        if ok {
            assert forall|x: int| 0 <= x < n && x != mine.root implies #[trigger] hangs(
                adj,
                mine,
                x,
            ) by {
                assert(seen[x]);
            }
            assert forall|u: int, k: int| 0 <= u < n && 0 <= k < adj[u].len() implies 0
                <= #[trigger] adj[u][k] < n && linked(mine, u, adj[u][k] as int) by {
                assert(tied(parent@, u, adj[u][k] as int));
            }
            assert(rooted(adj, mine));
        } else if is_spanning_tree(adj) {
            let t = rooting_at(adj, 0);
            lemma_rooting_at(adj, 0);
            assert forall|u: int, k: int| 0 <= u < n && 0 <= k < adj[u].len() implies tied(
                parent@,
                u,
                #[trigger] adj[u][k] as int,
            ) by {
                assert(linked(t, u, adj[u][k] as int));
                assert(seen@[u]);
                assert(seen@[adj[u][k] as int]);
            }
            assert forall|u: int| 0 < u < n implies names(#[trigger] adj[u], parent[u] as int) by {
                assert(hangs(adj, t, u));
                assert(seen@[u]);
            }
        }
    }
    ok
}

} // verus!
