//! Scratch space for one split attempt, reused from attempt to attempt.
use std::collections::VecDeque;
use vstd::prelude::*;

verus! {

/// The working state of one split: a work queue, and for every node of the
/// subgraph a slot in each of the other fields. It is made once, for the
/// largest subgraph that will be split, and cleared before each use.
pub struct SplitBuffer {
    /// The nodes waiting to be handled, taken from the front or the back.
    pub deque: VecDeque<usize>,
    /// Which nodes the rooting pass has handled.
    pub visited: Vec<bool>,
    /// The children of each node in the rooted tree.
    pub succ: Vec<Vec<usize>>,
    /// The parent of each node in the rooted tree.
    pub pred: Vec<usize>,
    /// Which nodes have their subtree population in `tree_pops`.
    pub pop_found: Vec<bool>,
    /// The population of the subtree at each node.
    pub tree_pops: Vec<u32>,
    /// The nodes at which the tree can be cut in balance.
    pub balance_nodes: Vec<usize>,
    /// Which nodes fall on the `a` side of the chosen cut.
    pub in_a: Vec<bool>,
}

impl SplitBuffer {
    /// The number of nodes the buffer has room for.
    pub open spec fn capacity(&self) -> nat {
        self.visited.len() as nat
    }

    /// Every per-node field has one slot per node.
    pub open spec fn wf(&self) -> bool {
        &&& self.succ.len() == self.capacity()
        &&& self.pred.len() == self.capacity()
        &&& self.pop_found.len() == self.capacity()
        &&& self.tree_pops.len() == self.capacity()
        &&& self.in_a.len() == self.capacity()
    }

    /// The buffer is as `clear` leaves it: the lists are empty, the flags
    /// down, the numbers zero.
    pub open spec fn is_clear(&self) -> bool {
        &&& self.deque@.len() == 0
        &&& self.balance_nodes@.len() == 0
        &&& forall|i: int| 0 <= i < self.visited.len() ==> !#[trigger] self.visited[i]
        &&& forall|i: int| 0 <= i < self.succ.len() ==> (#[trigger] self.succ[i])@.len() == 0
        &&& forall|i: int| 0 <= i < self.pred.len() ==> #[trigger] self.pred[i] == 0
        &&& forall|i: int| 0 <= i < self.pop_found.len() ==> !#[trigger] self.pop_found[i]
        &&& forall|i: int| 0 <= i < self.tree_pops.len() ==> #[trigger] self.tree_pops[i] == 0
        &&& forall|i: int| 0 <= i < self.in_a.len() ==> !#[trigger] self.in_a[i]
    }

    /// Whether the buffer is in shape and has room for `n` nodes.
    pub fn has_room(&self, n: usize) -> (ok: bool)
        ensures
            ok == (self.wf() && n <= self.capacity()),
    {
        let cap = self.visited.len();
        self.succ.len() == cap && self.pred.len() == cap && self.pop_found.len() == cap
            && self.tree_pops.len() == cap && self.in_a.len() == cap && n <= cap
    }

    /// Makes a cleared buffer for subgraphs of up to `n` nodes, with room
    /// set aside for `m` balance nodes.
    pub fn new(n: usize, m: usize) -> (buf: SplitBuffer)
        ensures
            buf.wf(),
            buf.capacity() == n,
            buf.is_clear(),
    {
        let mut buf = SplitBuffer {
            deque: VecDeque::with_capacity(n),
            visited: Vec::with_capacity(n),
            succ: Vec::with_capacity(n),
            pred: Vec::with_capacity(n),
            pop_found: Vec::with_capacity(n),
            tree_pops: Vec::with_capacity(n),
            balance_nodes: Vec::with_capacity(m),
            in_a: Vec::with_capacity(n),
        };
        let mut i: usize = 0;
        while i < n
            invariant
                i <= n,
                buf.wf(),
                buf.capacity() == i,
                buf.is_clear(),
            decreases n - i,
        {
            buf.visited.push(false);
            buf.succ.push(Vec::new());
            buf.pred.push(0);
            buf.pop_found.push(false);
            buf.tree_pops.push(0);
            buf.in_a.push(false);
            i += 1;
        }
        buf
    }

    /// Empties the lists, lowers the flags and zeroes the numbers. The
    /// capacity stays.
    pub fn clear(&mut self)
        requires
            old(self).wf(),
        ensures
            final(self).wf(),
            final(self).capacity() == old(self).capacity(),
            final(self).is_clear(),
    {
        let n = self.visited.len();
        self.deque.clear();
        self.balance_nodes.clear();
        let mut i: usize = 0;
        while i < n
            invariant
                i <= n,
                self.wf(),
                self.capacity() == n,
                self.deque@.len() == 0,
                self.balance_nodes@.len() == 0,
                forall|j: int| 0 <= j < i ==> !#[trigger] self.visited[j],
                forall|j: int| 0 <= j < i ==> (#[trigger] self.succ[j])@.len() == 0,
                forall|j: int| 0 <= j < i ==> #[trigger] self.pred[j] == 0,
                forall|j: int| 0 <= j < i ==> !#[trigger] self.pop_found[j],
                forall|j: int| 0 <= j < i ==> #[trigger] self.tree_pops[j] == 0,
                forall|j: int| 0 <= j < i ==> !#[trigger] self.in_a[j],
            decreases n - i,
        {
            self.visited[i] = false;
            self.succ[i].clear();
            self.pred[i] = 0;
            self.pop_found[i] = false;
            self.tree_pops[i] = 0;
            self.in_a[i] = false;
            i += 1;
        }
    }
}

} // verus!
