//! Sums of integer sequences, for measuring how much work a loop has left.
use vstd::prelude::*;

verus! {

/// The sum of the first `k` entries of `w`.
pub open spec fn tally(w: Seq<int>, k: int) -> int
    decreases k,
{
    if k <= 0 {
        0
    } else {
        tally(w, k - 1) + w[k - 1]
    }
}

/// Replacing one entry changes the sum by the difference.
pub proof fn lemma_tally_update(w: Seq<int>, i: int, x: int, k: int)
    requires
        0 <= k <= w.len(),
        0 <= i < w.len(),
    ensures
        tally(w.update(i, x), k) == tally(w, k) + if i < k {
            x - w[i]
        } else {
            0
        },
    decreases k,
{
    if k > 0 {
        lemma_tally_update(w, i, x, k - 1);
    }
}

/// A sum of entries that are none below zero is at least each of them.
pub proof fn lemma_tally_covers(w: Seq<int>, i: int, k: int)
    requires
        0 <= k <= w.len(),
        forall|j: int| 0 <= j < k ==> 0 <= #[trigger] w[j],
    ensures
        0 <= tally(w, k),
        0 <= i < k ==> w[i] <= tally(w, k),
    decreases k,
{
    if k > 0 {
        lemma_tally_covers(w, i, k - 1);
    }
}

/// A sum of `k` entries that are all `x` is `k` times `x`.
pub proof fn lemma_tally_flat(w: Seq<int>, x: int, k: int)
    requires
        0 <= k <= w.len(),
        forall|j: int| 0 <= j < k ==> #[trigger] w[j] == x,
    ensures
        tally(w, k) == k * x,
    decreases k,
{
    if k > 0 {
        lemma_tally_flat(w, x, k - 1);
        assert(k * x == (k - 1) * x + x) by (nonlinear_arith);
    } else {
        assert(k * x == 0) by (nonlinear_arith)
            requires
                k == 0,
        ;
    }
}

} // verus!
