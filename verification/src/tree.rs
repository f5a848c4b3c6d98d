//! Spanning trees as adjacency lists, and what rooting one at a node means.
//!
//! A spanning tree arrives as a list of neighbour lists with no direction in
//! it. The split algorithm roots it; this module says what a rooting is,
//! that a tree has exactly one per root, and how subtrees nest.
use vstd::prelude::*;

verus! {

/// A direction for every edge of a tree: each node's parent and its distance
/// from the root. The root is its own parent.
#[verifier::ext_equal]
pub struct Rooting {
    pub root: int,
    pub parent: Seq<int>,
    pub depth: Seq<nat>,
}

/// `c` is a child of `u` in `t`.
pub open spec fn is_child(t: Rooting, u: int, c: int) -> bool {
    0 <= c < t.parent.len() && c != t.root && t.parent[c] == u
}

/// The neighbour list `nb` names the node `v`.
pub open spec fn names(nb: Seq<usize>, v: int) -> bool {
    exists|k: int| 0 <= k < nb.len() && #[trigger] nb[k] == v
}

/// The edge between `v` and its parent is present in both neighbour lists,
/// and `v` sits one level below its parent.
pub open spec fn hangs(adj: Seq<Seq<usize>>, t: Rooting, v: int) -> bool {
    let p = t.parent[v];
    &&& 0 <= p < adj.len()
    &&& t.depth[v] == t.depth[p] + 1
    &&& names(adj[p], v)
    &&& names(adj[v], p)
}

/// `u` and `v` are parent and child, one way or the other.
pub open spec fn linked(t: Rooting, u: int, v: int) -> bool {
    is_child(t, u, v) || is_child(t, v, u)
}

/// `t` orients `adj` as a tree: every node but the root hangs from a parent,
/// every listed neighbour is a parent or a child, and no neighbour is listed
/// twice.
pub open spec fn rooted(adj: Seq<Seq<usize>>, t: Rooting) -> bool {
    let n = adj.len() as int;
    &&& 0 <= t.root < n
    &&& t.parent.len() == n
    &&& t.depth.len() == n
    &&& t.parent[t.root] == t.root
    &&& t.depth[t.root] == 0
    &&& forall|v: int| 0 <= v < n && v != t.root ==> #[trigger] hangs(adj, t, v)
    &&& forall|u: int, k: int|
        0 <= u < n && 0 <= k < adj[u].len() ==> 0 <= #[trigger] adj[u][k] < n && linked(
            t,
            u,
            adj[u][k] as int,
        )
    &&& forall|u: int| 0 <= u < n ==> (#[trigger] adj[u]).no_duplicates()
}

/// `adj` is a tree on the nodes `0..adj.len()`: connected, without cycles,
/// loops or repeated edges. Stated through a witness: some node can be made
/// the root.
pub open spec fn is_spanning_tree(adj: Seq<Seq<usize>>) -> bool {
    exists|t: Rooting| rooted(adj, t)
}

/// The rooting of the tree `adj` at `r`.
pub open spec fn rooting_at(adj: Seq<Seq<usize>>, r: int) -> Rooting {
    choose|t: Rooting| rooted(adj, t) && t.root == r
}

/// `a` is `x` or an ancestor of `x`.
pub open spec fn under(t: Rooting, a: int, x: int) -> bool
    decreases t.depth[x],
{
    if x == a {
        true
    } else if x != t.root && t.depth[t.parent[x]] < t.depth[x] {
        under(t, a, t.parent[x])
    } else {
        false
    }
}

/// The nodes of the subtree that hangs at `a`.
pub open spec fn below(t: Rooting, a: int) -> Set<int> {
    Set::new(|x: int| 0 <= x < t.parent.len() && under(t, a, x))
}

/// The children of `u` among its first `k` neighbours, in list order.
pub open spec fn kids_upto(nb: Seq<usize>, t: Rooting, u: int, k: int) -> Seq<usize>
    decreases k,
{
    if k <= 0 {
        Seq::empty()
    } else {
        let rest = kids_upto(nb, t, u, k - 1);
        if is_child(t, u, nb[k - 1] as int) {
            rest.push(nb[k - 1])
        } else {
            rest
        }
    }
}

/// The children of `u`, in the order of its neighbour list.
pub open spec fn kids(adj: Seq<Seq<usize>>, t: Rooting, u: int) -> Seq<usize> {
    kids_upto(adj[u], t, u, adj[u].len() as int)
}

/// The first node at or after `from` with more than one neighbour, or
/// `adj.len()` where there is none.
pub open spec fn first_branch(adj: Seq<Seq<usize>>, from: int) -> int
    decreases adj.len() - from,
{
    if from < 0 || from >= adj.len() {
        adj.len() as int
    } else if adj[from].len() > 1 {
        from
    } else {
        first_branch(adj, from + 1)
    }
}

/// The node the split algorithm roots the tree at.
pub open spec fn split_root(adj: Seq<Seq<usize>>) -> int {
    first_branch(adj, 0)
}

/// `first_branch` finds a node with more than one neighbour and passes none.
pub proof fn lemma_first_branch(adj: Seq<Seq<usize>>, from: int)
    requires
        0 <= from <= adj.len(),
    ensures
        from <= first_branch(adj, from) <= adj.len(),
        first_branch(adj, from) < adj.len() ==> adj[first_branch(adj, from)].len() > 1,
        forall|j: int| from <= j < first_branch(adj, from) ==> (#[trigger] adj[j]).len() <= 1,
    decreases adj.len() - from,
{
    if from < adj.len() && adj[from].len() <= 1 {
        lemma_first_branch(adj, from + 1);
    }
}

/// An ancestor is never deeper than its descendant.
pub proof fn lemma_under_depth(adj: Seq<Seq<usize>>, t: Rooting, a: int, x: int)
    requires
        rooted(adj, t),
        0 <= x < adj.len(),
        under(t, a, x),
    ensures
        0 <= a < adj.len(),
        t.depth[a] <= t.depth[x],
    decreases t.depth[x],
{
    if x != a {
        assert(hangs(adj, t, x));
        lemma_under_depth(adj, t, a, t.parent[x]);
    }
}

/// The root is under no node but itself, and any other node that is not
/// `a` is under `a` exactly when its parent is.
pub proof fn lemma_under_step(adj: Seq<Seq<usize>>, t: Rooting, a: int, x: int)
    requires
        rooted(adj, t),
        0 <= x < adj.len(),
        x != a,
    ensures
        x == t.root ==> !under(t, a, x),
        x != t.root ==> under(t, a, x) == under(t, a, t.parent[x]),
{
    if x != t.root {
        assert(hangs(adj, t, x));
    }
}

/// Two ancestors of one node at the same depth are the same node.
pub proof fn lemma_under_chain(adj: Seq<Seq<usize>>, t: Rooting, a: int, b: int, x: int)
    requires
        rooted(adj, t),
        0 <= x < adj.len(),
        under(t, a, x),
        under(t, b, x),
        t.depth[a] == t.depth[b],
    ensures
        a == b,
    decreases t.depth[x],
{
    if x == a {
        lemma_under_depth(adj, t, b, x);
        if a != b {
            lemma_under_step(adj, t, b, x);
            assert(hangs(adj, t, x));
            lemma_under_depth(adj, t, b, t.parent[x]);
        }
    } else if x == b {
        lemma_under_step(adj, t, a, x);
        assert(hangs(adj, t, x));
        lemma_under_depth(adj, t, a, t.parent[x]);
    } else {
        assert(hangs(adj, t, x));
        lemma_under_chain(adj, t, a, b, t.parent[x]);
    }
}

/// A proper descendant of `u` lies under exactly one child of `u`.
pub proof fn lemma_under_child(adj: Seq<Seq<usize>>, t: Rooting, u: int, x: int) -> (c: int)
    requires
        rooted(adj, t),
        0 <= x < adj.len(),
        under(t, u, x),
        x != u,
    ensures
        is_child(t, u, c),
        under(t, c, x),
    decreases t.depth[x],
{
    assert(hangs(adj, t, x));
    let p = t.parent[x];
    if p == u {
        x
    } else {
        lemma_under_child(adj, t, u, p)
    }
}

/// What lies under a child of `u` lies under `u`, and is not `u`.
pub proof fn lemma_child_under(adj: Seq<Seq<usize>>, t: Rooting, u: int, c: int, x: int)
    requires
        rooted(adj, t),
        0 <= x < adj.len(),
        is_child(t, u, c),
        under(t, c, x),
    ensures
        under(t, u, x),
        x != u,
        t.depth[x] > t.depth[u],
    decreases t.depth[x],
{
    assert(hangs(adj, t, c));
    assert(under(t, u, u));
    if x == c {
        assert(under(t, u, c));
    } else {
        assert(hangs(adj, t, x));
        lemma_child_under(adj, t, u, c, t.parent[x]);
    }
}

/// A neighbour of `u` is its parent or one of its children, never both, and
/// never `u` itself.
pub proof fn lemma_neighbour(adj: Seq<Seq<usize>>, t: Rooting, u: int, k: int)
    requires
        rooted(adj, t),
        0 <= u < adj.len(),
        0 <= k < adj[u].len(),
    ensures
        0 <= adj[u][k] < adj.len(),
        adj[u][k] != u,
        is_child(t, u, adj[u][k] as int) != (u != t.root && t.parent[u] == adj[u][k]),
{
    let v = adj[u][k] as int;
    assert(linked(t, u, v));
    if is_child(t, u, v) {
        assert(hangs(adj, t, v));
        if u != t.root {
            assert(hangs(adj, t, u));
        }
    } else {
        assert(hangs(adj, t, u));
    }
}

/// The child list holds exactly the children, each once.
pub proof fn lemma_kids_upto(adj: Seq<Seq<usize>>, t: Rooting, u: int, k: int)
    requires
        rooted(adj, t),
        0 <= u < adj.len(),
        0 <= k <= adj[u].len(),
    ensures
        kids_upto(adj[u], t, u, k).len() <= k,
        forall|i: int|
            0 <= i < kids_upto(adj[u], t, u, k).len() ==> is_child(
                t,
                u,
                #[trigger] kids_upto(adj[u], t, u, k)[i] as int,
            ),
        forall|i: int|
            0 <= i < kids_upto(adj[u], t, u, k).len() ==> exists|j: int|
                0 <= j < k && adj[u][j] == #[trigger] kids_upto(adj[u], t, u, k)[i],
        forall|j: int|
            0 <= j < k && is_child(t, u, adj[u][j] as int) ==> kids_upto(
                adj[u],
                t,
                u,
                k,
            ).contains(#[trigger] adj[u][j]),
        kids_upto(adj[u], t, u, k).no_duplicates(),
    decreases k,
{
    if k > 0 {
        lemma_kids_upto(adj, t, u, k - 1);
        let rest = kids_upto(adj[u], t, u, k - 1);
        let now = kids_upto(adj[u], t, u, k);
        let w = adj[u][k - 1];
        if is_child(t, u, w as int) {
            assert(now == rest.push(w));
            assert(now[rest.len() as int] == w);
            assert forall|i: int| 0 <= i < now.len() implies exists|j: int|
                0 <= j < k && adj[u][j] == #[trigger] now[i] by {
                if i < rest.len() {
                    let j = choose|j: int| 0 <= j < k - 1 && adj[u][j] == rest[i];
                    assert(adj[u][j] == now[i]);
                } else {
                    assert(adj[u][k - 1] == now[i]);
                }
            }
            assert forall|j: int| 0 <= j < k && is_child(t, u, adj[u][j] as int)
                implies now.contains(
                #[trigger] adj[u][j],
            ) by {
                if j < k - 1 {
                    let i = choose|i: int| 0 <= i < rest.len() && rest[i] == adj[u][j];
                    assert(now[i] == adj[u][j]);
                } else {
                    assert(now[rest.len() as int] == adj[u][j]);
                }
            }
            assert forall|i: int, j: int| 0 <= i < now.len() && 0 <= j < now.len() && i != j
                implies now[i]
                != now[j] by {
                if i == rest.len() {
                    let m = choose|m: int| 0 <= m < k - 1 && adj[u][m] == rest[j];
                    assert(adj[u][m] != adj[u][k - 1]);
                } else if j == rest.len() {
                    let m = choose|m: int| 0 <= m < k - 1 && adj[u][m] == rest[i];
                    assert(adj[u][m] != adj[u][k - 1]);
                }
            }
        } else {
            assert(now == rest);
            assert forall|i: int| 0 <= i < now.len() implies exists|j: int|
                0 <= j < k && adj[u][j] == #[trigger] now[i] by {
                let j = choose|j: int| 0 <= j < k - 1 && adj[u][j] == rest[i];
                assert(adj[u][j] == now[i]);
            }
        }
    }
}

/// The facts of `lemma_kids_upto` for the whole child list.
pub proof fn lemma_kids(adj: Seq<Seq<usize>>, t: Rooting, u: int)
    requires
        rooted(adj, t),
        0 <= u < adj.len(),
    ensures
        forall|i: int|
            0 <= i < kids(adj, t, u).len() ==> is_child(t, u, #[trigger] kids(adj, t, u)[i] as int),
        forall|c: int| is_child(t, u, c) ==> names(kids(adj, t, u), c),
        kids(adj, t, u).no_duplicates(),
{
    lemma_kids_upto(adj, t, u, adj[u].len() as int);
    assert forall|c: int| is_child(t, u, c) implies names(kids(adj, t, u), c) by {
        assert(hangs(adj, t, c));
        let j = choose|j: int| 0 <= j < adj[u].len() && #[trigger] adj[u][j] == c;
        assert(kids(adj, t, u).contains(adj[u][j]));
        let i = choose|i: int| 0 <= i < kids(adj, t, u).len() && kids(adj, t, u)[i] == adj[u][j];
        assert(kids(adj, t, u)[i] == c);
    }
}

/// Making a neighbour `c` of the root the new root.
proof fn lemma_reroot_step(adj: Seq<Seq<usize>>, t: Rooting, c: int) -> (s: Rooting)
    requires
        rooted(adj, t),
        0 <= c < adj.len(),
        names(adj[t.root], c),
    ensures
        rooted(adj, s),
        s.root == c,
{
    let n = adj.len() as int;
    let q = t.root;
    let k = choose|k: int| 0 <= k < adj[q].len() && #[trigger] adj[q][k] == c;
    lemma_neighbour(adj, t, q, k);
    assert(is_child(t, q, c));
    assert(hangs(adj, t, c));
    let s = Rooting {
        root: c,
        parent: Seq::new(
            n as nat,
            |x: int|
                if x == q || x == c {
                    c
                } else {
                    t.parent[x]
                },
        ),
        depth: Seq::new(
            n as nat,
            |x: int|
                if under(t, c, x) {
                    (t.depth[x] - 1) as nat
                } else {
                    t.depth[x] + 1
                },
        ),
    };
    assert(under(t, c, c));
    lemma_under_step(adj, t, c, q);
    assert forall|v: int| 0 <= v < n && v != s.root implies #[trigger] hangs(adj, s, v) by {
        if v != q {
            assert(hangs(adj, t, v));
            let p = t.parent[v];
            lemma_under_step(adj, t, c, v);
            if under(t, c, v) {
                lemma_under_depth(adj, t, c, v);
                lemma_under_depth(adj, t, c, p);
            }
        }
    }
    assert forall|u: int, j: int| 0 <= u < n && 0 <= j < adj[u].len() implies 0
        <= #[trigger] adj[u][j] < n && linked(s, u, adj[u][j] as int) by {
        let v = adj[u][j] as int;
        assert(linked(t, u, v));
    }
    s
}

/// A tree can be rooted at any of its nodes.
pub proof fn lemma_reroot(adj: Seq<Seq<usize>>, t: Rooting, r: int) -> (s: Rooting)
    requires
        rooted(adj, t),
        0 <= r < adj.len(),
    ensures
        rooted(adj, s),
        s.root == r,
    decreases t.depth[r],
{
    if r == t.root {
        t
    } else {
        assert(hangs(adj, t, r));
        let mid = lemma_reroot(adj, t, t.parent[r]);
        lemma_reroot_step(adj, mid, r)
    }
}

/// Two rootings at one root give each node the same parent and depth.
proof fn lemma_same_parent(adj: Seq<Seq<usize>>, s: Rooting, t: Rooting, v: int)
    requires
        rooted(adj, s),
        rooted(adj, t),
        s.root == t.root,
        0 <= v < adj.len(),
    ensures
        s.parent[v] == t.parent[v],
        s.depth[v] == t.depth[v],
    decreases s.depth[v],
{
    if v != s.root {
        assert(hangs(adj, s, v));
        let p = s.parent[v];
        let k = choose|k: int| 0 <= k < adj[v].len() && #[trigger] adj[v][k] == p;
        assert(linked(t, v, adj[v][k] as int));
        lemma_same_parent(adj, s, t, p);
        if is_child(t, v, p) {
            assert(hangs(adj, s, p));
        } else {
            assert(hangs(adj, t, v));
        }
    }
}

/// A tree has one rooting at a given root.
pub proof fn lemma_rooting_unique(adj: Seq<Seq<usize>>, s: Rooting, t: Rooting)
    requires
        rooted(adj, s),
        rooted(adj, t),
        s.root == t.root,
    ensures
        s == t,
{
    assert forall|v: int| 0 <= v < adj.len() implies s.parent[v] == t.parent[v] && s.depth[v]
        == t.depth[v] by {
        lemma_same_parent(adj, s, t, v);
    }
    assert(s.parent =~= t.parent);
    assert(s.depth =~= t.depth);
}

/// `rooting_at` names the rooting of a tree at any of its nodes.
pub proof fn lemma_rooting_at(adj: Seq<Seq<usize>>, r: int)
    requires
        is_spanning_tree(adj),
        0 <= r < adj.len(),
    ensures
        rooted(adj, rooting_at(adj, r)),
        rooting_at(adj, r).root == r,
{
    let t = choose|t: Rooting| rooted(adj, t);
    let s = lemma_reroot(adj, t, r);
    assert(rooted(adj, s) && s.root == r);
}

} // verus!
