//! The second pass of a split: from the leaves inwards, the population of
//! every subtree.
use crate::buffers::SplitBuffer;
use crate::counting::{lemma_tally_covers, lemma_tally_update, tally};
use crate::graph::{lists, pop_sum};
use crate::rooting::holds_rooting;
use crate::tree::{
    below, hangs, is_child, kids, kids_upto, lemma_kids, lemma_neighbour, names, rooted, Rooting,
};
use crate::weights::{kids_weight, lemma_mass_bounds, lemma_weight_parts, weight};
use vstd::prelude::*;

verus! {

/// Those of the first `j` nodes of `ks` whose population is not found yet,
/// in list order.
pub open spec fn unfound_upto(ks: Seq<usize>, found: Seq<bool>, j: int) -> Seq<usize>
    decreases j,
{
    if j <= 0 {
        Seq::empty()
    } else {
        let rest = unfound_upto(ks, found, j - 1);
        if !found[ks[j - 1] as int] {
            rest.push(ks[j - 1])
        } else {
            rest
        }
    }
}

/// The population of every child of `u` is found.
pub open spec fn settled(t: Rooting, found: Seq<bool>, u: int) -> bool {
    forall|c: int| is_child(t, u, c) ==> found[c]
}

/// The node at place `i` of the stack has been put back to wait for its
/// children, and each of them is found or stands above it.
pub open spec fn awaits(t: Rooting, found: Seq<bool>, s: Seq<usize>, i: int) -> bool {
    forall|c: int|
        is_child(t, s[i] as int, c) ==> found[c] || exists|j: int|
            i < j < s.len() && #[trigger] s[j] == c
}

/// What holds of the found populations and the stack between two steps of
/// the pass. `opened` marks the nodes that were put back once.
pub open spec fn ledger(
    adj: Seq<Seq<usize>>,
    t: Rooting,
    found: Seq<bool>,
    opened: Seq<bool>,
    s: Seq<usize>,
) -> bool {
    let n = adj.len() as int;
    &&& found.len() >= n
    &&& opened.len() == n
    &&& forall|i: int| 0 <= i < s.len() ==> 0 <= #[trigger] s[i] < n && !found[s[i] as int]
    &&& s.no_duplicates()
    &&& forall|i: int|
        0 <= i < s.len() && #[trigger] s[i] != t.root ==> opened[t.parent[s[i] as int]]
    &&& forall|i: int| 0 <= i < s.len() && opened[#[trigger] s[i] as int] ==> awaits(t, found, s, i)
    &&& forall|v: int| 0 <= v < n && #[trigger] opened[v] ==> found[v] || names(s, v)
    &&& found[t.root] || names(s, t.root)
    &&& forall|v: int| 0 <= v < n && #[trigger] found[v] ==> settled(t, found, v)
}

/// The list of children not found yet holds exactly those, each once.
proof fn lemma_unfound(adj: Seq<Seq<usize>>, t: Rooting, found: Seq<bool>, u: int, j: int)
    requires
        rooted(adj, t),
        0 <= u < adj.len(),
        0 <= j <= kids(adj, t, u).len(),
    ensures
        forall|i: int|
            0 <= i < unfound_upto(kids(adj, t, u), found, j).len() ==> {
                &&& is_child(t, u, #[trigger] unfound_upto(kids(adj, t, u), found, j)[i] as int)
                &&& !found[unfound_upto(kids(adj, t, u), found, j)[i] as int]
                &&& exists|m: int|
                    0 <= m < j && kids(adj, t, u)[m] == unfound_upto(kids(adj, t, u), found, j)[i]
            },
        forall|m: int|
            0 <= m < j && !found[kids(adj, t, u)[m] as int] ==> unfound_upto(
                kids(adj, t, u),
                found,
                j,
            ).contains(#[trigger] kids(adj, t, u)[m]),
        unfound_upto(kids(adj, t, u), found, j).no_duplicates(),
    decreases j,
{
    let ks = kids(adj, t, u);
    lemma_kids(adj, t, u);
    if j > 0 {
        lemma_unfound(adj, t, found, u, j - 1);
        let rest = unfound_upto(ks, found, j - 1);
        let now = unfound_upto(ks, found, j);
        let c = ks[j - 1];
        if !found[c as int] {
            assert(now == rest.push(c));
            assert(now[rest.len() as int] == c);
            assert forall|i: int| 0 <= i < now.len() implies {
                &&& is_child(t, u, #[trigger] now[i] as int)
                &&& !found[now[i] as int]
                &&& exists|m: int| 0 <= m < j && ks[m] == now[i]
            } by {
                if i < rest.len() {
                    let m = choose|m: int| 0 <= m < j - 1 && ks[m] == rest[i];
                    assert(ks[m] == now[i]);
                } else {
                    assert(ks[j - 1] == now[i]);
                }
            }
            assert forall|m: int| 0 <= m < j && !found[ks[m] as int] implies now.contains(
                #[trigger] ks[m],
            ) by {
                if m < j - 1 {
                    let i = choose|i: int| 0 <= i < rest.len() && rest[i] == ks[m];
                    assert(now[i] == ks[m]);
                }
            }
            assert forall|a: int, b: int| 0 <= a < now.len() && 0 <= b < now.len() && a != b
                implies now[a]
                != now[b] by {
                if a == rest.len() {
                    let m = choose|m: int| 0 <= m < j - 1 && ks[m] == rest[b];
                } else if b == rest.len() {
                    let m = choose|m: int| 0 <= m < j - 1 && ks[m] == rest[a];
                }
            }
        } else {
            assert(now == rest);
            assert forall|i: int| 0 <= i < now.len() implies {
                &&& is_child(t, u, #[trigger] now[i] as int)
                &&& !found[now[i] as int]
                &&& exists|m: int| 0 <= m < j && ks[m] == now[i]
            } by {
                let m = choose|m: int| 0 <= m < j - 1 && ks[m] == rest[i];
                assert(ks[m] == now[i]);
            }
        }
    }
}

/// A node on top of the stack that was put back before has every child's
/// population found.
proof fn lemma_ledger_top(
    adj: Seq<Seq<usize>>,
    t: Rooting,
    found: Seq<bool>,
    opened: Seq<bool>,
    s: Seq<usize>,
)
    requires
        rooted(adj, t),
        ledger(adj, t, found, opened, s),
        s.len() > 0,
    ensures
        0 <= s.last() < adj.len(),
        !found[s.last() as int],
        opened[s.last() as int] ==> settled(t, found, s.last() as int),
{
    let i = s.len() - 1;
    assert(0 <= s[i] < adj.len());
    if opened[s[i] as int] {
        assert(awaits(t, found, s, i));
    }
}

/// Finding the population of the node on top of the stack keeps `ledger`.
proof fn lemma_ledger_settle(
    adj: Seq<Seq<usize>>,
    t: Rooting,
    found: Seq<bool>,
    opened: Seq<bool>,
    s: Seq<usize>,
)
    requires
        rooted(adj, t),
        ledger(adj, t, found, opened, s),
        s.len() > 0,
        settled(t, found, s.last() as int),
    ensures
        ledger(adj, t, found.update(s.last() as int, true), opened, s.drop_last()),
{
    let n = adj.len() as int;
    let top = s.last() as int;
    let s1 = s.drop_last();
    let found1 = found.update(top, true);
    assert(0 <= s[s.len() - 1] < n);
    assert forall|i: int| 0 <= i < s1.len()
        implies 0 <= #[trigger] s1[i] < n && !found1[s1[i] as int] by {
        assert(s1[i] == s[i]);
    }
    assert forall|i: int| 0 <= i < s1.len() && #[trigger] s1[i] != t.root
        implies opened[t.parent[s1[i] as int]] by {
        assert(s1[i] == s[i]);
    }
    assert forall|i: int| 0 <= i < s1.len() && opened[#[trigger] s1[i] as int] implies awaits(
        t,
        found1,
        s1,
        i,
    ) by {
        assert(s1[i] == s[i]);
        assert(awaits(t, found, s, i));
        assert forall|c: int| is_child(t, s1[i] as int, c) implies found1[c] || exists|j: int|
            i < j < s1.len() && #[trigger] s1[j] == c by {
            if !found[c] {
                let j = choose|j: int| i < j < s.len() && #[trigger] s[j] == c;
                if j < s1.len() {
                    assert(s1[j] == c);
                }
            }
        }
    }
    if !found1[t.root] {
        let i = choose|i: int| 0 <= i < s.len() && #[trigger] s[i] == t.root;
        assert(s1[i] == t.root);
    }
    assert forall|v: int| 0 <= v < n && #[trigger] opened[v] implies found1[v] || names(s1, v) by {
        if v != top && !found[v] {
            let k = choose|k: int| 0 <= k < s.len() && #[trigger] s[k] == v;
            assert(s1[k] == v);
        }
    }
    assert forall|v: int| 0 <= v < n && #[trigger] found1[v] implies settled(t, found1, v) by {
        if v != top {
            assert(found[v]);
            assert(settled(t, found, v));
        }
    }
}

/// Putting the node on top of the stack back, with its children whose
/// population is not found above it, keeps `ledger`.
proof fn lemma_ledger_open(
    adj: Seq<Seq<usize>>,
    t: Rooting,
    found: Seq<bool>,
    opened: Seq<bool>,
    s: Seq<usize>,
)
    requires
        rooted(adj, t),
        ledger(adj, t, found, opened, s),
        s.len() > 0,
        !opened[s.last() as int],
    ensures
        ledger(
            adj,
            t,
            found,
            opened.update(s.last() as int, true),
            s + unfound_upto(
                kids(adj, t, s.last() as int),
                found,
                kids(adj, t, s.last() as int).len() as int,
            ),
        ),
{
    let n = adj.len() as int;
    let top = s.last() as int;
    assert(0 <= s[s.len() - 1] < n);
    let ks = kids(adj, t, top);
    let more = unfound_upto(ks, found, ks.len() as int);
    let s1 = s + more;
    let opened1 = opened.update(top, true);
    lemma_kids(adj, t, top);
    lemma_unfound(adj, t, found, top, ks.len() as int);
    assert forall|i: int| 0 <= i < s1.len()
        implies 0 <= #[trigger] s1[i] < n && !found[s1[i] as int] by {
        if i < s.len() {
            assert(s1[i] == s[i]);
        } else {
            assert(s1[i] == more[i - s.len()]);
        }
    }
    assert forall|i: int| 0 <= i < s1.len() && #[trigger] s1[i] != t.root
        implies opened1[t.parent[s1[i] as int]] by {
        if i < s.len() {
            assert(s1[i] == s[i]);
            assert(hangs(adj, t, s[i] as int));
        } else {
            assert(s1[i] == more[i - s.len()]);
            assert(is_child(t, top, more[i - s.len()] as int));
        }
    }
    assert forall|i: int, j: int| 0 <= i < s1.len() && 0 <= j < s1.len() && i != j implies s1[i]
        != s1[j] by {
        if i < s.len() && j < s.len() {
            assert(s1[i] == s[i] && s1[j] == s[j]);
        } else if i >= s.len() && j >= s.len() {
            assert(s1[i] == more[i - s.len()] && s1[j] == more[j - s.len()]);
        } else {
            let (a, b) = if i < s.len() {
                (i, j)
            } else {
                (j, i)
            };
            assert(s1[a] == s[a]);
            assert(s1[b] == more[b - s.len()]);
            assert(is_child(t, top, more[b - s.len()] as int));
        }
    }
    assert forall|i: int| 0 <= i < s1.len() && opened1[#[trigger] s1[i] as int] implies awaits(
        t,
        found,
        s1,
        i,
    ) by {
        if i < s.len() {
            assert(s1[i] == s[i]);
            if i == s.len() - 1 {
                assert forall|c: int| is_child(t, s1[i] as int, c)
                    implies found[c] || exists|j: int|
                    i < j < s1.len() && #[trigger] s1[j] == c by {
                    if !found[c] {
                        let m = choose|m: int| 0 <= m < ks.len() && #[trigger] ks[m] == c;
                        assert(more.contains(ks[m]));
                        let a = choose|a: int| 0 <= a < more.len() && more[a] == ks[m];
                        assert(s1[s.len() + a] == c);
                    }
                }
            } else {
                assert(s[i] != s[s.len() - 1]);
                assert(awaits(t, found, s, i));
                assert forall|c: int| is_child(t, s1[i] as int, c)
                    implies found[c] || exists|j: int|
                    i < j < s1.len() && #[trigger] s1[j] == c by {
                    if !found[c] {
                        let j = choose|j: int| i < j < s.len() && #[trigger] s[j] == c;
                        assert(s1[j] == c);
                    }
                }
            }
        } else {
            let c = more[i - s.len()] as int;
            assert(s1[i] == c);
            assert(is_child(t, top, c));
            assert(hangs(adj, t, c));
            assert(c != top);
            if opened[c] {
                let k = choose|k: int| 0 <= k < s.len() && #[trigger] s[k] == c;
                assert(opened[t.parent[s[k] as int]]);
            }
        }
    }
    assert forall|v: int| 0 <= v < n && #[trigger] opened1[v] implies found[v] || names(s1, v) by {
        if v == top {
            assert(s1[s.len() - 1] == v);
        } else if !found[v] {
            let k = choose|k: int| 0 <= k < s.len() && #[trigger] s[k] == v;
            assert(s1[k] == v);
        }
    }
    if !found[t.root] {
        let i = choose|i: int| 0 <= i < s.len() && #[trigger] s[i] == t.root;
        assert(s1[i] == t.root);
    }
}

/// Once the stack is empty every population is found.
proof fn lemma_ledger_done(
    adj: Seq<Seq<usize>>,
    t: Rooting,
    found: Seq<bool>,
    opened: Seq<bool>,
    s: Seq<usize>,
    x: int,
)
    requires
        rooted(adj, t),
        ledger(adj, t, found, opened, s),
        s.len() == 0,
        0 <= x < adj.len(),
    ensures
        found[x],
    decreases t.depth[x],
{
    if x != t.root {
        assert(hangs(adj, t, x));
        lemma_ledger_done(adj, t, found, opened, s, t.parent[x]);
        assert(settled(t, found, t.parent[x]));
        assert(is_child(t, t.parent[x], x));
    }
}

/// A node with one neighbour that is not the root has no children.
proof fn lemma_leaf(adj: Seq<Seq<usize>>, t: Rooting, u: int)
    requires
        rooted(adj, t),
        0 <= u < adj.len(),
        u != t.root,
        adj[u].len() == 1,
    ensures
        kids(adj, t, u).len() == 0,
{
    assert(hangs(adj, t, u));
    lemma_neighbour(adj, t, u, 0);
    assert(kids_upto(adj[u], t, u, 0).len() == 0);
}

/// Computes the population of the subtree at every node, children before
/// parents. A node whose children are not all done is put back on the stack
/// below them and met again when they are.
pub(crate) fn gather_pops(
    pops: &Vec<u32>,
    mst: &Vec<Vec<usize>>,
    root: usize,
    buf: &mut SplitBuffer,
    Ghost(t): Ghost<Rooting>,
)
    requires
        rooted(lists(mst@), t),
        t.root == root,
        mst[root as int].len() > 1,
        pops.len() == mst.len(),
        pop_sum(pops@, pops.len() as int) <= u32::MAX,
        old(buf).wf(),
        mst.len() <= old(buf).capacity(),
        old(buf).deque@.len() == 0,
        holds_rooting(old(buf), lists(mst@), t),
        forall|v: int| 0 <= v < old(buf).pop_found.len() ==> !#[trigger] old(buf).pop_found[v],
    ensures
        final(buf).wf(),
        final(buf).capacity() == old(buf).capacity(),
        final(buf).deque@.len() == 0,
        final(buf).succ@ == old(buf).succ@,
        final(buf).pred@ == old(buf).pred@,
        final(buf).balance_nodes@ == old(buf).balance_nodes@,
        final(buf).in_a@ == old(buf).in_a@,
        forall|v: int|
            0 <= v < mst.len() ==> #[trigger] final(buf).tree_pops[v] == weight(pops@, t, v),
{
    let ghost adj = lists(mst@);
    let n = mst.len();
    let ghost mut opened: Seq<bool> = Seq::new(n as nat, |i: int| false);
    let ghost mut w: Seq<int> = Seq::new(n as nat, |i: int| 2int);
    buf.deque.push_back(root);
    proof {
        assert(buf.deque@[0] == root);
    }
    while buf.deque.len() > 0
        invariant
            n == mst.len(),
            adj == lists(mst@),
            rooted(adj, t),
            t.root == root,
            mst[root as int].len() > 1,
            pops.len() == n,
            pop_sum(pops@, n as int) <= u32::MAX,
            buf.wf(),
            buf.capacity() == old(buf).capacity(),
            n <= buf.capacity(),
            buf.succ@ == old(buf).succ@,
            buf.pred@ == old(buf).pred@,
            buf.balance_nodes@ == old(buf).balance_nodes@,
            buf.in_a@ == old(buf).in_a@,
            holds_rooting(buf, adj, t),
            ledger(adj, t, buf.pop_found@, opened, buf.deque@),
            w.len() == n,
            forall|v: int|
                0 <= v < n ==> #[trigger] w[v] == if buf.pop_found[v] {
                    0int
                } else if opened[v] {
                    1int
                } else {
                    2int
                },
            forall|v: int|
                0 <= v < n && buf.pop_found[v] ==> #[trigger] buf.tree_pops[v] == weight(
                    pops@,
                    t,
                    v,
                ),
        decreases tally(w, n as int),
    {
        let ghost s = buf.deque@;
        let ghost found0 = buf.pop_found@;
        let ghost sums0 = buf.tree_pops@;
        proof {
            lemma_ledger_top(adj, t, found0, opened, s);
            lemma_tally_covers(w, s.last() as int, n as int);
        }
        let next = buf.deque.pop_back().unwrap();
        proof {
            assert(buf.deque@ == s.drop_last());
            assert(next == s.last());
            lemma_kids(adj, t, next as int);
            lemma_mass_bounds(pops@, below(t, next as int), n as int);
        }
        let ghost ks = kids(adj, t, next as int);
        if !buf.pop_found[next] {
            if mst[next].len() == 1 {
                proof {
                    assert(adj[next as int] == mst@[next as int]@);
                    lemma_leaf(adj, t, next as int);
                    lemma_weight_parts(pops@, adj, t, next as int, 0);
                    assert(settled(t, found0, next as int)) by {
                        assert forall|c: int| is_child(t, next as int, c) implies found0[c] by {
                            assert(names(ks, c));
                        }
                    }
                    lemma_ledger_settle(adj, t, found0, opened, s);
                    lemma_tally_update(w, next as int, 0, n as int);
                    w = w.update(next as int, 0);
                }
                buf.tree_pops[next] = pops[next];
                buf.pop_found[next] = true;
            } else {
                let count = buf.succ[next].len();
                let mut ready = true;
                let mut j: usize = 0;
                while j < count
                    invariant
                        j <= count,
                        next < n,
                        n <= buf.capacity(),
                        buf.wf(),
                        buf.pop_found@ == found0,
                        buf.succ[next as int]@ == ks,
                        count == ks.len(),
                        forall|i: int| 0 <= i < ks.len() ==> #[trigger] ks[i] < n,
                        ready == forall|i: int| 0 <= i < j ==> found0[#[trigger] ks[i] as int],
                    decreases count - j,
                {
                    if !buf.pop_found[buf.succ[next][j]] {
                        ready = false;
                    }
                    j += 1;
                }
                if ready {
                    proof {
                        assert(settled(t, found0, next as int)) by {
                            assert forall|c: int| is_child(t, next as int, c) implies found0[c] by {
                                let i = choose|i: int| 0 <= i < ks.len() && #[trigger] ks[i] == c;
                            }
                        }
                    }
                    let mut sum: u32 = 0;
                    j = 0;
                    while j < count
                        invariant
                            j <= count,
                            next < n,
                            n <= buf.capacity(),
                            buf.wf(),
                            pops.len() == n,
                            adj.len() == n,
                            rooted(adj, t),
                            pop_sum(pops@, n as int) <= u32::MAX,
                            weight(pops@, t, next as int) <= pop_sum(pops@, n as int),
                            buf.succ[next as int]@ == ks,
                            ks == kids(adj, t, next as int),
                            count == ks.len(),
                            forall|i: int|
                                0 <= i < ks.len()
                                    ==> #[trigger] ks[i] < n && buf.tree_pops[ks[i] as int]
                                    == weight(pops@, t, ks[i] as int),
                            sum == kids_weight(pops@, adj, t, next as int, j as int),
                        decreases count - j,
                    {
                        proof {
                            lemma_weight_parts(pops@, adj, t, next as int, j as int + 1);
                        }
                        sum = sum + buf.tree_pops[buf.succ[next][j]];
                        j += 1;
                    }
                    proof {
                        lemma_weight_parts(pops@, adj, t, next as int, count as int);
                        lemma_ledger_settle(adj, t, found0, opened, s);
                        lemma_tally_update(w, next as int, 0, n as int);
                        w = w.update(next as int, 0);
                    }
                    buf.tree_pops[next] = sum + pops[next];
                    buf.pop_found[next] = true;
                } else {
                    proof {
                        let i = choose|i: int|
                            0 <= i < ks.len() && !found0[#[trigger] ks[i] as int];
                        assert(is_child(t, next as int, ks[i] as int));
                        assert(!settled(t, found0, next as int));
                        lemma_ledger_open(adj, t, found0, opened, s);
                        lemma_tally_update(w, next as int, 1, n as int);
                        w = w.update(next as int, 1);
                    }
                    buf.deque.push_back(next);
                    proof {
                        assert(buf.deque@ == s);
                    }
                    j = 0;
                    while j < count
                        invariant
                            j <= count,
                            next < n,
                            n <= buf.capacity(),
                            buf.wf(),
                            buf.capacity() == old(buf).capacity(),
                            buf.pop_found@ == found0,
                            buf.succ@ == old(buf).succ@,
                            buf.pred@ == old(buf).pred@,
                            buf.tree_pops@ == sums0,
                            buf.balance_nodes@ == old(buf).balance_nodes@,
                            buf.in_a@ == old(buf).in_a@,
                            buf.succ[next as int]@ == ks,
                            count == ks.len(),
                            forall|i: int| 0 <= i < ks.len() ==> #[trigger] ks[i] < n,
                            buf.deque@ == s + unfound_upto(ks, found0, j as int),
                        decreases count - j,
                    {
                        let child = buf.succ[next][j];
                        if !buf.pop_found[child] {
                            buf.deque.push_back(child);
                        }
                        j += 1;
                    }
                    proof {
                        opened = opened.update(next as int, true);
                    }
                }
            }
        }
    }
    proof {
        assert forall|v: int| 0 <= v < n
            implies #[trigger] buf.tree_pops[v] == weight(pops@, t, v) by {
            lemma_ledger_done(adj, t, buf.pop_found@, opened, buf.deque@, v);
        }
    }
}

} // verus!
