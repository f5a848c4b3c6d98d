//! The last pass of a split: the subtree below the chosen node becomes one
//! district, everything else the other.
use crate::buffers::SplitBuffer;
use crate::counting::{lemma_tally_covers, lemma_tally_flat, lemma_tally_update, tally};
use crate::graph::pop_sum;
use crate::rooting::holds_rooting;
use crate::tree::{
    below, hangs, is_child, kids, lemma_kids, lemma_under_depth, lemma_under_step, names, rooted,
    under, Rooting,
};
use crate::weights::{lemma_listed_mass, lemma_mass_bounds, listed_mass, weight};
use vstd::prelude::*;

verus! {

/// The nodes met when the queue is worked off from the front, each node
/// putting its children at the back, for at most `fuel` nodes.
pub open spec fn sweep(adj: Seq<Seq<usize>>, t: Rooting, queue: Seq<usize>, fuel: nat) -> Seq<usize>
    decreases fuel,
{
    if fuel == 0 || queue.len() == 0 {
        Seq::empty()
    } else {
        seq![queue[0]] + sweep(
            adj,
            t,
            queue.drop_first() + kids(adj, t, queue[0] as int),
            (fuel - 1) as nat,
        )
    }
}

/// The subtree at `cut` in breadth-first order, children in the order of
/// their parent's neighbour list.
pub open spec fn side_a(adj: Seq<Seq<usize>>, t: Rooting, cut: int) -> Seq<usize> {
    sweep(adj, t, seq![cut as usize], adj.len())
}

/// The nodes below `k` that are not in the subtree at `cut`, ascending.
pub open spec fn side_b_upto(t: Rooting, cut: int, k: int) -> Seq<usize>
    decreases k,
{
    if k <= 0 {
        Seq::empty()
    } else {
        let rest = side_b_upto(t, cut, k - 1);
        if under(t, cut, k - 1) {
            rest
        } else {
            rest.push((k - 1) as usize)
        }
    }
}

/// The nodes that are not in the subtree at `cut`, ascending.
pub open spec fn side_b(adj: Seq<Seq<usize>>, t: Rooting, cut: int) -> Seq<usize> {
    side_b_upto(t, cut, adj.len() as int)
}

/// The nodes of `nodes` under the names that `map` gives them.
pub open spec fn relabel(nodes: Seq<usize>, map: Seq<usize>) -> Seq<usize> {
    Seq::new(nodes.len(), |i: int| map[nodes[i] as int])
}

/// The side away from the cut has as many nodes as are not under it.
pub proof fn lemma_side_b_len(t: Rooting, cut: int, w: Seq<int>, k: int)
    requires
        0 <= k <= w.len(),
        forall|x: int|
            0 <= x < k ==> #[trigger] w[x] == if under(t, cut, x) {
                0int
            } else {
                1int
            },
    ensures
        side_b_upto(t, cut, k).len() == tally(w, k),
    decreases k,
{
    if k > 0 {
        lemma_side_b_len(t, cut, w, k - 1);
    }
}

/// `x` may stand in the queue: it belongs to the subtree at `cut`, is not
/// taken yet, and its parent is.
pub open spec fn reachable(ina: Seq<bool>, t: Rooting, cut: int, n: int, x: int) -> bool {
    0 <= x < n && !ina[x] && under(t, cut, x) && (x == cut || ina[t.parent[x]])
}

/// What holds of the taken nodes and the queue between two steps of the
/// pass.
pub open spec fn region(
    adj: Seq<Seq<usize>>,
    t: Rooting,
    cut: int,
    ina: Seq<bool>,
    q: Seq<usize>,
) -> bool {
    let n = adj.len() as int;
    &&& ina.len() >= n
    &&& forall|i: int| 0 <= i < q.len() ==> reachable(ina, t, cut, n, #[trigger] q[i] as int)
    &&& q.no_duplicates()
    &&& forall|v: int|
        0 <= v < n && #[trigger] ina[v] ==> under(t, cut, v) && (v == cut || ina[t.parent[v]])
    &&& forall|v: int|
        0 <= v < n && v != cut && under(t, cut, v) && ina[#[trigger] t.parent[v]] ==> ina[v]
            || names(q, v)
    &&& ina[cut] || names(q, cut)
}

/// Taking the node at the front of the queue keeps `region`.
proof fn lemma_region_step(
    adj: Seq<Seq<usize>>,
    t: Rooting,
    cut: int,
    ina: Seq<bool>,
    q: Seq<usize>,
)
    requires
        rooted(adj, t),
        region(adj, t, cut, ina, q),
        q.len() > 0,
    ensures
        reachable(ina, t, cut, adj.len() as int, q[0] as int),
        region(
            adj,
            t,
            cut,
            ina.update(q[0] as int, true),
            q.drop_first() + kids(adj, t, q[0] as int),
        ),
{
    let n = adj.len() as int;
    let next = q[0] as int;
    let ks = kids(adj, t, next);
    let rest = q.drop_first();
    let ina1 = ina.update(next, true);
    let q1 = rest + ks;
    assert(reachable(ina, t, cut, n, q[0] as int));
    lemma_kids(adj, t, next);
    lemma_under_depth(adj, t, cut, next);
    assert forall|i: int| 0 <= i < ks.len()
        implies reachable(ina1, t, cut, n, #[trigger] ks[i] as int) by {
        let c = ks[i] as int;
        assert(is_child(t, next, c));
        assert(hangs(adj, t, c));
        lemma_under_step(adj, t, cut, c);
    }
    assert forall|i: int| 0 <= i < q1.len()
        implies reachable(ina1, t, cut, n, #[trigger] q1[i] as int) by {
        if i < rest.len() {
            assert(q1[i] == q[i + 1]);
            assert(reachable(ina, t, cut, n, q[i + 1] as int));
            if q[i + 1] != cut {
                lemma_under_step(adj, t, cut, q[i + 1] as int);
                assert(hangs(adj, t, q[i + 1] as int));
            }
        } else {
            assert(q1[i] == ks[i - rest.len()]);
        }
    }
    assert forall|i: int, j: int| 0 <= i < q1.len() && 0 <= j < q1.len() && i != j implies q1[i]
        != q1[j] by {
        if i < rest.len() && j < rest.len() {
            assert(q1[i] == q[i + 1] && q1[j] == q[j + 1]);
        } else if i >= rest.len() && j >= rest.len() {
            assert(q1[i] == ks[i - rest.len()] && q1[j] == ks[j - rest.len()]);
        } else {
            let (a, b) = if i < rest.len() {
                (i, j)
            } else {
                (j, i)
            };
            assert(q1[a] == q[a + 1]);
            assert(q1[b] == ks[b - rest.len()]);
            assert(reachable(ina, t, cut, n, q[a + 1] as int));
            assert(reachable(ina1, t, cut, n, ks[b - rest.len()] as int));
            assert(is_child(t, next, ks[b - rest.len()] as int));
            assert(hangs(adj, t, ks[b - rest.len()] as int));
        }
    }
    assert forall|v: int| 0 <= v < n && #[trigger] ina1[v] implies under(t, cut, v) && (v == cut
        || ina1[t.parent[v]]) by {
        if v != cut {
            if v != next {
                assert(ina[v]);
            }
            lemma_under_step(adj, t, cut, v);
            assert(hangs(adj, t, v));
        }
    }
    assert forall|v: int|
        0 <= v < n && v != cut && under(t, cut, v) && ina1[#[trigger] t.parent[v]] implies ina1[v]
        || names(q1, v) by {
        lemma_under_step(adj, t, cut, v);
        assert(hangs(adj, t, v));
        if t.parent[v] == next {
            assert(is_child(t, next, v));
            let i = choose|i: int| 0 <= i < ks.len() && #[trigger] ks[i] == v;
            assert(q1[rest.len() + i] == v);
        } else if !ina[v] {
            let i = choose|i: int| 0 <= i < q.len() && #[trigger] q[i] == v;
            if i > 0 {
                assert(q1[i - 1] == v);
            }
        }
    }
    if !ina1[cut] {
        let i = choose|i: int| 0 <= i < q.len() && #[trigger] q[i] == cut;
        assert(q1[i - 1] == cut);
    }
    assert(q1.no_duplicates());
}

/// Once the queue is empty the whole subtree is taken.
proof fn lemma_region_done(
    adj: Seq<Seq<usize>>,
    t: Rooting,
    cut: int,
    ina: Seq<bool>,
    q: Seq<usize>,
    x: int,
)
    requires
        rooted(adj, t),
        region(adj, t, cut, ina, q),
        q.len() == 0,
        0 <= x < adj.len(),
        under(t, cut, x),
    ensures
        ina[x],
    decreases t.depth[x],
{
    if x != cut {
        lemma_under_step(adj, t, cut, x);
        assert(hangs(adj, t, x));
        lemma_region_done(adj, t, cut, ina, q, t.parent[x]);
    }
}

/// The nodes that are neither taken nor under `cut`, each counted as one.
pub open spec fn outside(t: Rooting, cut: int, ina: Seq<bool>, n: nat) -> Seq<int> {
    Seq::new(
        n,
        |v: int|
            if ina[v] || under(t, cut, v) {
                0int
            } else {
                1int
            },
    )
}

/// What the sweep from the queue collects: every node of the subtree that
/// is not taken yet, once, and nothing else.
pub proof fn lemma_sweep(
    adj: Seq<Seq<usize>>,
    t: Rooting,
    cut: int,
    ina: Seq<bool>,
    q: Seq<usize>,
    w: Seq<int>,
)
    requires
        rooted(adj, t),
        region(adj, t, cut, ina, q),
        w.len() == adj.len(),
        forall|v: int|
            0 <= v < adj.len() ==> #[trigger] w[v] == if ina[v] {
                0int
            } else {
                1int
            },
    ensures
        ({
            let n = adj.len() as int;
            let s = sweep(adj, t, q, tally(w, n) as nat);
            &&& s.no_duplicates()
            &&& forall|i: int|
                0 <= i < s.len() ==> #[trigger] s[i] < n && !ina[s[i] as int] && under(
                    t,
                    cut,
                    s[i] as int,
                )
            &&& forall|x: int| 0 <= x < n && under(t, cut, x) && !ina[x] ==> names(s, x)
            &&& s.len() + tally(outside(t, cut, ina, adj.len()), n) == tally(w, n)
        }),
    decreases tally(w, adj.len() as int),
{
    let n = adj.len() as int;
    let fuel = tally(w, n);
    let s = sweep(adj, t, q, fuel as nat);
    lemma_tally_covers(w, 0, n);
    if q.len() == 0 {
        assert forall|x: int| 0 <= x < n && under(t, cut, x) implies ina[x] by {
            lemma_region_done(adj, t, cut, ina, q, x);
        }
        assert(outside(t, cut, ina, adj.len()) =~= w);
    } else {
        lemma_region_step(adj, t, cut, ina, q);
        let next = q[0] as int;
        lemma_tally_covers(w, next, n);
        lemma_tally_update(w, next, 0, n);
        let w1 = w.update(next, 0);
        let ina1 = ina.update(next, true);
        let q1 = q.drop_first() + kids(adj, t, next);
        lemma_sweep(adj, t, cut, ina1, q1, w1);
        let s1 = sweep(adj, t, q1, (fuel - 1) as nat);
        assert(s == seq![q[0]] + s1);
        assert(s[0] == q[0]);
        assert forall|i: int| 0 < i < s.len() implies s[i] == s1[i - 1] by {}
        assert forall|i: int, j: int| 0 <= i < s.len() && 0 <= j < s.len() && i != j implies s[i]
            != s[j] by {
            if i == 0 {
                assert(!ina1[s1[j - 1] as int]);
            } else if j == 0 {
                assert(!ina1[s1[i - 1] as int]);
            } else {
                assert(s1[i - 1] != s1[j - 1]);
            }
        }
        assert forall|i: int| 0 <= i < s.len() implies #[trigger] s[i] < n && !ina[s[i] as int]
            && under(t, cut, s[i] as int) by {
            if i > 0 {
                assert(s1[i - 1] < n && !ina1[s1[i - 1] as int]);
            }
        }
        assert forall|x: int| 0 <= x < n && under(t, cut, x) && !ina[x] implies names(s, x) by {
            if x != next {
                assert(!ina1[x]);
                assert(names(s1, x));
                let i = choose|i: int| 0 <= i < s1.len() && #[trigger] s1[i] == x;
                assert(s[i + 1] == s1[i]);
            } else {
                assert(s[0] == x);
            }
        }
        assert(outside(t, cut, ina1, adj.len()) =~= outside(t, cut, ina, adj.len()));
    }
}

/// The two sides of a cut hold every node between them, and none twice.
pub proof fn lemma_sides(adj: Seq<Seq<usize>>, t: Rooting, cut: int, map: Seq<usize>)
    requires
        map.len() == adj.len(),
        adj.len() <= usize::MAX,
        side_a(adj, t, cut).no_duplicates(),
        forall|x: int| 0 <= x < adj.len() ==> (under(t, cut, x) <==> names(side_a(adj, t, cut), x)),
        forall|i: int|
            0 <= i < side_a(adj, t, cut).len() ==> #[trigger] side_a(adj, t, cut)[i] < adj.len(),
    ensures
        relabel(side_a(adj, t, cut), map).to_set().union(
            relabel(side_b(adj, t, cut), map).to_set(),
        ) == map.to_set(),
        map.no_duplicates() ==> relabel(side_a(adj, t, cut), map).to_set().disjoint(
            relabel(side_b(adj, t, cut), map).to_set(),
        ),
{
    let n = adj.len() as int;
    let sa = side_a(adj, t, cut);
    let sb = side_b(adj, t, cut);
    let ra = relabel(sa, map);
    let rb = relabel(sb, map);
    lemma_side_b(t, cut, n);
    assert forall|y: usize| ra.to_set().union(rb.to_set()).contains(y) == map.to_set().contains(
        y,
    ) by {
        if ra.contains(y) {
            let i = choose|i: int| 0 <= i < ra.len() && ra[i] == y;
            assert(map[sa[i] as int] == y);
        }
        if rb.contains(y) {
            let i = choose|i: int| 0 <= i < rb.len() && rb[i] == y;
            assert(map[sb[i] as int] == y);
        }
        if map.contains(y) {
            let x = choose|x: int| 0 <= x < map.len() && map[x] == y;
            if under(t, cut, x) {
                let i = choose|i: int| 0 <= i < sa.len() && #[trigger] sa[i] == x;
                assert(ra[i] == y);
            } else {
                let i = choose|i: int| 0 <= i < sb.len() && #[trigger] sb[i] == x;
                assert(rb[i] == y);
            }
        }
    }
    assert(ra.to_set().union(rb.to_set()) =~= map.to_set());
    if map.no_duplicates() {
        assert forall|y: usize| !(ra.to_set().contains(y) && rb.to_set().contains(y)) by {
            if ra.contains(y) && rb.contains(y) {
                let i = choose|i: int| 0 <= i < ra.len() && ra[i] == y;
                let j = choose|j: int| 0 <= j < rb.len() && rb[j] == y;
                assert(names(sa, sa[i] as int));
                assert(map[sa[i] as int] == map[sb[j] as int]);
            }
        }
    }
}

/// The side away from the cut lists exactly the nodes that are not under it.
proof fn lemma_side_b(t: Rooting, cut: int, k: int)
    requires
        0 <= k <= usize::MAX,
    ensures
        forall|i: int|
            0 <= i < side_b_upto(t, cut, k).len() ==> {
                &&& #[trigger] side_b_upto(t, cut, k)[i] < k
                &&& !under(t, cut, side_b_upto(t, cut, k)[i] as int)
            },
        forall|x: int|
            0 <= x < k && !under(t, cut, x) ==> names(side_b_upto(t, cut, k), x),
    decreases k,
{
    if k > 0 {
        lemma_side_b(t, cut, k - 1);
        let rest = side_b_upto(t, cut, k - 1);
        let now = side_b_upto(t, cut, k);
        assert forall|x: int| 0 <= x < k && !under(t, cut, x) implies names(now, x) by {
            if x < k - 1 {
                let i = choose|i: int| 0 <= i < rest.len() && #[trigger] rest[i] == x;
                assert(now[i] == x);
            } else {
                assert(now[rest.len() as int] == x);
            }
        }
    }
}

/// The subtree at `cut` goes to `a_nodes`, breadth-first, and all other
/// nodes to `b_nodes`, ascending, each under its name in `map`. Returns the
/// population of the subtree.
pub(crate) fn cut_tree(
    pops: &Vec<u32>,
    map: &Vec<usize>,
    cut: usize,
    buf: &mut SplitBuffer,
    a_nodes: &mut Vec<usize>,
    b_nodes: &mut Vec<usize>,
    Ghost(adj): Ghost<Seq<Seq<usize>>>,
    Ghost(t): Ghost<Rooting>,
) -> (a_pop: u32)
    requires
        rooted(adj, t),
        adj.len() == pops.len(),
        adj.len() == map.len(),
        pop_sum(pops@, pops.len() as int) <= u32::MAX,
        cut < adj.len(),
        old(buf).wf(),
        adj.len() <= old(buf).capacity(),
        old(buf).deque@.len() == 0,
        holds_rooting(old(buf), adj, t),
        forall|v: int| 0 <= v < old(buf).in_a.len() ==> !#[trigger] old(buf).in_a[v],
        old(a_nodes)@.len() == 0,
        old(b_nodes)@.len() == 0,
    ensures
        final(buf).wf(),
        final(buf).capacity() == old(buf).capacity(),
        a_pop == weight(pops@, t, cut as int),
        final(a_nodes)@ == relabel(side_a(adj, t, cut as int), map@),
        final(b_nodes)@ == relabel(side_b(adj, t, cut as int), map@),
        side_a(adj, t, cut as int).no_duplicates(),
        side_a(adj, t, cut as int).len() + side_b(adj, t, cut as int).len() == adj.len(),
        forall|x: int|
            0 <= x < adj.len() ==> (under(t, cut as int, x) <==> names(
                side_a(adj, t, cut as int),
                x,
            )),
        forall|i: int|
            0 <= i < side_a(adj, t, cut as int).len() ==> #[trigger] side_a(
                adj,
                t,
                cut as int,
            )[i] < adj.len(),
{
    let n = pops.len();
    let ghost mut done: Seq<usize> = Seq::empty();
    let ghost mut w: Seq<int> = Seq::new(n as nat, |i: int| 1int);
    let mut a_pop: u32 = 0;
    buf.deque.push_back(cut);
    proof {
        assert(buf.deque@[0] == cut);
        assert(buf.deque@ =~= seq![cut]);
        assert(under(t, cut as int, cut as int));
        lemma_tally_flat(w, 1, n as int);
        assert(done + sweep(adj, t, buf.deque@, n as nat) =~= sweep(adj, t, seq![cut], n as nat));
        assert forall|v: int| 0 <= v < n && v != cut implies !buf.in_a[#[trigger] t.parent[v]] by {
            if v != t.root {
                assert(hangs(adj, t, v));
            }
        }
    }
    while buf.deque.len() > 0
        invariant
            n == pops.len(),
            n == adj.len(),
            n == map.len(),
            rooted(adj, t),
            cut < n,
            pop_sum(pops@, n as int) <= u32::MAX,
            buf.wf(),
            buf.capacity() == old(buf).capacity(),
            n <= buf.capacity(),
            holds_rooting(buf, adj, t),
            region(adj, t, cut as int, buf.in_a@, buf.deque@),
            w.len() == n,
            forall|v: int|
                0 <= v < n ==> #[trigger] w[v] == if buf.in_a[v] {
                    0int
                } else {
                    1int
                },
            done.no_duplicates(),
            tally(w, n as int) + done.len() == n,
            forall|i: int| 0 <= i < done.len() ==> #[trigger] done[i] < n,
            forall|v: int| 0 <= v < n ==> (#[trigger] buf.in_a[v] <==> names(done, v)),
            done + sweep(adj, t, buf.deque@, tally(w, n as int) as nat) == sweep(
                adj,
                t,
                seq![cut],
                n as nat,
            ),
            a_pop == listed_mass(pops@, done),
            a_nodes@ == relabel(done, map@),
            b_nodes@.len() == 0,
        decreases tally(w, n as int),
    {
        let ghost q = buf.deque@;
        let ghost ina0 = buf.in_a@;
        let ghost fuel = tally(w, n as int);
        let next = buf.deque.pop_front().unwrap();
        let ghost rest = buf.deque@;
        let ghost ks = kids(adj, t, next as int);
        proof {
            lemma_region_step(adj, t, cut as int, ina0, q);
            lemma_tally_covers(w, next as int, n as int);
            lemma_tally_update(w, next as int, 0, n as int);
            assert(rest == q.drop_first());
            lemma_kids(adj, t, next as int);
        }
        if !buf.in_a[next] {
            let ghost taken = done.push(next);
            proof {
                assert forall|i: int, j: int|
                    0 <= i < taken.len() && 0 <= j < taken.len() && i != j implies taken[i]
                    != taken[j] by {
                    if i == done.len() {
                        assert(names(done, taken[j] as int));
                    } else if j == done.len() {
                        assert(names(done, taken[i] as int));
                    }
                }
                let set = Set::new(|x: int| names(taken, x));
                lemma_listed_mass(pops@, taken, set);
                lemma_mass_bounds(pops@, set, n as int);
                assert(taken.drop_last() == done);
                assert(relabel(done, map@).push(map@[next as int]) =~= relabel(taken, map@));
            }
            a_nodes.push(map[next]);
            a_pop = a_pop + pops[next];
            buf.in_a[next] = true;
            let count = buf.succ[next].len();
            let mut j: usize = 0;
            while j < count
                invariant
                    j <= count,
                    next < n,
                    n <= buf.capacity(),
                    buf.wf(),
                    buf.capacity() == old(buf).capacity(),
                    n == adj.len(),
                    holds_rooting(buf, adj, t),
                    buf.in_a@ == ina0.update(next as int, true),
                    ks == kids(adj, t, next as int),
                    count == ks.len(),
                    buf.deque@ == rest + ks.take(j as int),
                decreases count - j,
            {
                let child = buf.succ[next][j];
                buf.deque.push_back(child);
                proof {
                    assert(ks.take(j as int).push(ks[j as int]) =~= ks.take(j as int + 1));
                }
                j += 1;
            }
            proof {
                assert(ks.take(count as int) =~= ks);
                let before = sweep(adj, t, q, fuel as nat);
                let after = sweep(adj, t, rest + ks, (fuel - 1) as nat);
                assert(before == seq![q[0]] + after);
                assert(done + before =~= taken + after);
                assert forall|v: int| 0 <= v < n implies (#[trigger] buf.in_a[v] <==> names(
                    taken,
                    v,
                )) by {
                    if v == next {
                        assert(taken[done.len() as int] == v);
                    } else {
                        if names(done, v) {
                            let i = choose|i: int| 0 <= i < done.len() && #[trigger] done[i] == v;
                            assert(taken[i] == v);
                        }
                        if names(taken, v) {
                            let i = choose|i: int| 0 <= i < taken.len() && #[trigger] taken[i] == v;
                            assert(done[i] == v);
                        }
                    }
                }
                w = w.update(next as int, 0);
                done = taken;
            }
        }
    }
    proof {
        assert(sweep(adj, t, buf.deque@, tally(w, n as int) as nat) =~= Seq::<usize>::empty());
        assert(done =~= side_a(adj, t, cut as int));
        assert forall|x: int| 0 <= x < n implies (under(t, cut as int, x) <==> names(done, x)) by {
            assert(buf.in_a[x] <==> names(done, x));
            if under(t, cut as int, x) {
                lemma_region_done(adj, t, cut as int, buf.in_a@, buf.deque@, x);
            }
        }
        lemma_listed_mass(pops@, done, below(t, cut as int));
        assert forall|x: int| 0 <= x < n implies #[trigger] w[x] == if under(t, cut as int, x) {
            0int
        } else {
            1int
        } by {
            assert(buf.in_a[x] <==> names(done, x));
        }
        lemma_side_b_len(t, cut as int, w, n as int);
    }
    let mut index: usize = 0;
    while index < n
        invariant
            index <= n,
            n == pops.len(),
            n == adj.len(),
            n == map.len(),
            buf.wf(),
            buf.capacity() == old(buf).capacity(),
            n <= buf.capacity(),
            forall|x: int| 0 <= x < n ==> (under(t, cut as int, x) <==> #[trigger] buf.in_a[x]),
            b_nodes@ == relabel(side_b_upto(t, cut as int, index as int), map@),
            a_nodes@ == relabel(done, map@),
        decreases n - index,
    {
        if !buf.in_a[index] {
            b_nodes.push(map[index]);
            proof {
                let before = side_b_upto(t, cut as int, index as int);
                assert(relabel(before, map@).push(map@[index as int]) =~= relabel(
                    before.push(index),
                    map@,
                ));
            }
        }
        index += 1;
    }
    a_pop
}

} // verus!
