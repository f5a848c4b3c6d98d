//! Population sums over sets of nodes, and the population of a subtree.
use crate::graph::pop_sum;
use crate::tree::{
    below, hangs, is_child, kids, lemma_child_under, lemma_kids, lemma_under_chain,
    lemma_under_child, names, rooted, under, Rooting,
};
use vstd::prelude::*;

verus! {

/// The population of the nodes of `s` that are below `k`.
pub open spec fn mass(pops: Seq<u32>, s: Set<int>, k: int) -> int
    decreases k,
{
    if k <= 0 {
        0
    } else {
        mass(pops, s, k - 1) + if s.contains(k - 1) {
            pops[k - 1] as int
        } else {
            0
        }
    }
}

/// The population of the subtree that hangs at `a`.
pub open spec fn weight(pops: Seq<u32>, t: Rooting, a: int) -> int {
    mass(pops, below(t, a), pops.len() as int)
}

/// The population of the nodes that `s` lists, counted as often as listed.
pub open spec fn listed_mass(pops: Seq<u32>, s: Seq<usize>) -> int
    decreases s.len(),
{
    if s.len() == 0 {
        0
    } else {
        listed_mass(pops, s.drop_last()) + pops[s.last() as int]
    }
}

/// The population of the subtrees at the first `j` children of `u`.
pub open spec fn kids_weight(
    pops: Seq<u32>,
    adj: Seq<Seq<usize>>,
    t: Rooting,
    u: int,
    j: int,
) -> int
    decreases j,
{
    if j <= 0 {
        0
    } else {
        kids_weight(pops, adj, t, u, j - 1) + weight(pops, t, kids(adj, t, u)[j - 1] as int)
    }
}

/// `u` with the subtrees at its first `j` children.
pub open spec fn cover(adj: Seq<Seq<usize>>, t: Rooting, u: int, j: int) -> Set<int> {
    Set::new(
        |x: int|
            0 <= x < adj.len() && (x == u || exists|i: int|
                0 <= i < j && under(t, #[trigger] kids(adj, t, u)[i] as int, x)),
    )
}

/// A set of nodes weighs no less than nothing and no more than all nodes.
pub proof fn lemma_mass_bounds(pops: Seq<u32>, s: Set<int>, k: int)
    requires
        0 <= k <= pops.len(),
    ensures
        0 <= mass(pops, s, k) <= pop_sum(pops, k),
    decreases k,
{
    if k > 0 {
        lemma_mass_bounds(pops, s, k - 1);
    }
}

/// A part weighs no more than the whole.
pub proof fn lemma_mass_subset(pops: Seq<u32>, s1: Set<int>, s2: Set<int>, k: int)
    requires
        0 <= k <= pops.len(),
        forall|x: int| 0 <= x < k && s1.contains(x) ==> s2.contains(x),
    ensures
        mass(pops, s1, k) <= mass(pops, s2, k),
    decreases k,
{
    if k > 0 {
        lemma_mass_subset(pops, s1, s2, k - 1);
    }
}

/// Sets that hold the same nodes below `k` weigh the same.
pub proof fn lemma_mass_same(pops: Seq<u32>, s1: Set<int>, s2: Set<int>, k: int)
    requires
        0 <= k <= pops.len(),
        forall|x: int| 0 <= x < k ==> s1.contains(x) == s2.contains(x),
    ensures
        mass(pops, s1, k) == mass(pops, s2, k),
    decreases k,
{
    if k > 0 {
        lemma_mass_same(pops, s1, s2, k - 1);
    }
}

/// The mass of two sets that share no node below `k` adds up.
pub proof fn lemma_mass_union(pops: Seq<u32>, s1: Set<int>, s2: Set<int>, s: Set<int>, k: int)
    requires
        0 <= k <= pops.len(),
        forall|x: int| 0 <= x < k ==> s.contains(x) == (s1.contains(x) || s2.contains(x)),
        forall|x: int| 0 <= x < k ==> !(s1.contains(x) && s2.contains(x)),
    ensures
        mass(pops, s, k) == mass(pops, s1, k) + mass(pops, s2, k),
    decreases k,
{
    if k > 0 {
        lemma_mass_union(pops, s1, s2, s, k - 1);
    }
}

/// A set that holds one node below `k` weighs what that node does.
pub proof fn lemma_mass_single(pops: Seq<u32>, s: Set<int>, u: int, k: int)
    requires
        0 <= k <= pops.len(),
        forall|x: int| 0 <= x < k ==> s.contains(x) == (x == u),
    ensures
        mass(pops, s, k) == if 0 <= u < k {
            pops[u] as int
        } else {
            0
        },
    decreases k,
{
    if k > 0 {
        lemma_mass_single(pops, s, u, k - 1);
    }
}

/// A list without repetitions weighs what the set of its nodes does.
pub proof fn lemma_listed_mass(pops: Seq<u32>, s: Seq<usize>, set: Set<int>)
    requires
        s.no_duplicates(),
        forall|i: int| 0 <= i < s.len() ==> #[trigger] s[i] < pops.len(),
        forall|x: int| 0 <= x < pops.len() ==> set.contains(x) == names(s, x),
    ensures
        listed_mass(pops, s) == mass(pops, set, pops.len() as int),
    decreases s.len(),
{
    let n = pops.len() as int;
    if s.len() == 0 {
        let none = Set::<int>::empty();
        lemma_mass_single(pops, none, -1, n);
        lemma_mass_same(pops, set, none, n);
    } else {
        let head = s.drop_last();
        let last = s.last() as int;
        let head_set = Set::new(|x: int| names(head, x));
        let last_set = Set::new(|x: int| x == last);
        assert forall|x: int| 0 <= x < n implies set.contains(x) == (head_set.contains(x)
            || last_set.contains(x)) by {
            if names(head, x) {
                let i = choose|i: int| 0 <= i < head.len() && #[trigger] head[i] == x;
                assert(s[i] == x);
            }
            if names(s, x) && x != last {
                let i = choose|i: int| 0 <= i < s.len() && #[trigger] s[i] == x;
                assert(head[i] == x);
            }
            if x == last {
                assert(s[s.len() - 1] == x);
            }
        }
        assert forall|x: int| 0 <= x < n implies !(head_set.contains(x) && last_set.contains(
            x,
        )) by {
            if names(head, x) && x == last {
                let i = choose|i: int| 0 <= i < head.len() && #[trigger] head[i] == x;
                assert(s[i] == s[s.len() - 1]);
            }
        }
        lemma_listed_mass(pops, head, head_set);
        lemma_mass_single(pops, last_set, last, n);
        lemma_mass_union(pops, head_set, last_set, set, n);
    }
}

/// A node with the subtrees at its first `j` children weighs no more than
/// its whole subtree, and as much once every child is counted.
pub proof fn lemma_weight_parts(
    pops: Seq<u32>,
    adj: Seq<Seq<usize>>,
    t: Rooting,
    u: int,
    j: int,
)
    requires
        rooted(adj, t),
        pops.len() == adj.len(),
        0 <= u < adj.len(),
        0 <= j <= kids(adj, t, u).len(),
    ensures
        pops[u] + kids_weight(pops, adj, t, u, j) == mass(
            pops,
            cover(adj, t, u, j),
            pops.len() as int,
        ),
        0 <= kids_weight(pops, adj, t, u, j),
        pops[u] + kids_weight(pops, adj, t, u, j) <= weight(pops, t, u),
        j == kids(adj, t, u).len() ==> pops[u] + kids_weight(pops, adj, t, u, j) == weight(
            pops,
            t,
            u,
        ),
    decreases j,
{
    let n = pops.len() as int;
    let ks = kids(adj, t, u);
    lemma_kids(adj, t, u);
    if j == 0 {
        lemma_mass_single(pops, cover(adj, t, u, 0), u, n);
    } else {
        lemma_weight_parts(pops, adj, t, u, j - 1);
        let c = ks[j - 1] as int;
        assert(is_child(t, u, c));
        let before = cover(adj, t, u, j - 1);
        let now = cover(adj, t, u, j);
        let sub = below(t, c);
        lemma_mass_bounds(pops, sub, n);
        assert forall|x: int| 0 <= x < n implies now.contains(x) == (before.contains(x)
            || sub.contains(x)) by {
            if now.contains(x) && x != u {
                let i = choose|i: int| 0 <= i < j && under(t, #[trigger] ks[i] as int, x);
                if i < j - 1 {
                    assert(before.contains(x));
                }
            }
            if before.contains(x) && x != u {
                let i = choose|i: int| 0 <= i < j - 1 && under(t, #[trigger] ks[i] as int, x);
                assert(0 <= i < j && under(t, ks[i] as int, x));
            }
            if sub.contains(x) {
                assert(under(t, ks[j - 1] as int, x));
            }
        }
        assert forall|x: int| 0 <= x < n implies !(before.contains(x) && sub.contains(x)) by {
            if before.contains(x) && sub.contains(x) {
                lemma_child_under(adj, t, u, c, x);
                let i = choose|i: int| 0 <= i < j - 1 && under(t, #[trigger] ks[i] as int, x);
                let d = ks[i] as int;
                assert(is_child(t, u, d));
                assert(hangs(adj, t, c));
                assert(hangs(adj, t, d));
                lemma_under_chain(adj, t, c, d, x);
            }
        }
        lemma_mass_union(pops, before, sub, now, n);
    }
    let all = cover(adj, t, u, j);
    assert(under(t, u, u));
    assert forall|x: int| 0 <= x < n && all.contains(x) implies below(t, u).contains(x) by {
        if x != u {
            let i = choose|i: int| 0 <= i < j && under(t, #[trigger] ks[i] as int, x);
            assert(is_child(t, u, ks[i] as int));
            lemma_child_under(adj, t, u, ks[i] as int, x);
        }
    }
    lemma_mass_subset(pops, all, below(t, u), n);
    lemma_mass_bounds(pops, cover(adj, t, u, j), n);
    if j == ks.len() {
        assert forall|x: int| 0 <= x < n implies all.contains(x) == below(t, u).contains(x) by {
            if below(t, u).contains(x) && x != u {
                let c = lemma_under_child(adj, t, u, x);
                let i = choose|i: int| 0 <= i < ks.len() && #[trigger] ks[i] == c;
                assert(under(t, ks[i] as int, x));
            }
        }
        lemma_mass_same(pops, all, below(t, u), n);
    }
}

} // verus!
