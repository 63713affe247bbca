//! The frontier: a min-priority collection of (cumulative weight, node)
//! pairs with deterministic tie-breaking by ascending node identifier.
//!
//! There is no update-priority operation: a cheaper discovery is pushed
//! again and the stale, heavier entry is ignored lazily at pop time.

use vstd::prelude::*;

verus! {

/// A transient search ordering key: a cumulative weight in microhours
/// paired with the node it reaches.
#[derive(Clone, Copy, PartialEq, Eq, Structural)]
pub struct State {
    pub weight: u128,
    pub node_id: i64,
}

/// The order the frontier yields: by weight, ties by ascending node id.
pub open spec fn state_le(a: State, b: State) -> bool {
    a.weight < b.weight || (a.weight == b.weight && a.node_id <= b.node_id)
}

/// Min-priority structure over `State` entries.
pub struct Frontier {
    entries: Vec<State>,
}

impl View for Frontier {
    type V = Seq<State>;

    closed spec fn view(&self) -> Seq<State> {
        self.entries@
    }
}

impl Frontier {
    /// An empty frontier.
    pub fn new() -> (r: Frontier)
        ensures
            r@ == Seq::<State>::empty(),
    {
        Frontier { entries: Vec::new() }
    }

    /// Number of pending entries.
    pub fn len(&self) -> (n: usize)
        ensures
            n == self@.len(),
    {
        self.entries.len()
    }

    /// Add an entry; stale entries for the same node may remain behind it.
    pub fn push(&mut self, s: State)
        ensures
            final(self)@ == old(self)@.push(s),
    {
        self.entries.push(s);
    }

    /// Remove and return an entry that is least in `(weight, node_id)` order:
    /// the smallest weight, ties broken by the smallest node identifier.
    pub fn pop_min(&mut self) -> (r: State)
        requires
            old(self)@.len() > 0,
        ensures
            exists|i: int|
                0 <= i < old(self)@.len() && r == old(self)@[i] && final(self)@ == old(self)@.remove(i),
            forall|k: int| 0 <= k < old(self)@.len() ==> state_le(r, #[trigger] old(self)@[k]),
    {
        let mut best: usize = 0;
        let mut j: usize = 1;
        let n = self.entries.len();
        while j < n
            invariant
                n == self@.len(),
                0 <= best < j <= n,
                forall|k: int| 0 <= k < j ==> state_le(self@[best as int], #[trigger] self@[k]),
            decreases n - j,
        {
            let c = self.entries[j];
            let b = self.entries[best];
            if c.weight < b.weight || (c.weight == b.weight && c.node_id < b.node_id) {
                best = j;
            }
            j = j + 1;
        }
        self.entries.remove(best)
    }
}

} // verus!
