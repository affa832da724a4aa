use vstd::prelude::*;

use crate::bits::{bits_of, BitSet};
use crate::graph::NodeId;
use crate::pair_index::{lemma_pair_slot_bijective, pair_count, pair_index, pair_slot};
use crate::tree::{distinct_pairs, joins, proper_edges, same_pair};

verus! {

/// The slot of an edge's unordered pair among `n` nodes.
pub open spec fn edge_slot(n: int, e: (NodeId, NodeId)) -> int {
    pair_slot(n, e.0 as int, e.1 as int)
}

/// A list of distinct edges together with one flag per possible pair that is set
/// exactly for the pairs the list holds, so that a pair is looked up in one step.
pub struct EdgeSet {
    pub size: usize,
    pub edges: Vec<(NodeId, NodeId)>,
    pub present: BitSet,
}

impl EdgeSet {
    pub open spec fn wf(&self) -> bool {
        &&& self.size >= 2
        &&& self.size * (self.size - 1) <= usize::MAX
        &&& bits_of(self.present).len() == pair_count(self.size as int)
        &&& proper_edges(self.size as int, self.edges@)
        &&& distinct_pairs(self.edges@)
        &&& forall|k: int|
            0 <= k < pair_count(self.size as int) ==> (#[trigger] bits_of(self.present)[k]
                <==> exists|j: int|
                0 <= j < self.edges@.len() && edge_slot(self.size as int, #[trigger] self.edges@[j])
                    == k)
    }

    /// An empty set of edges over the nodes `0..size`.
    pub fn empty(size: usize) -> (r: EdgeSet)
        requires
            size >= 2,
            size * (size - 1) <= usize::MAX,
            pair_count(size as int) <= usize::MAX / 8,
        ensures
            r.wf(),
            r.size == size,
            r.edges@ == Seq::<(NodeId, NodeId)>::empty(),
    {
        proof {
            assert(size * (size - 1) / 2 <= usize::MAX) by (nonlinear_arith)
                requires
                    size >= 2,
                    size * (size - 1) <= usize::MAX,
            ;
        }
        let slots: usize = size * (size - 1) / 2;
        EdgeSet { size, edges: Vec::new(), present: BitSet::zeroed(slots) }
    }

    /// Takes the edge `{a, b}` in when it joins two different nodes and its pair is not
    /// held yet; reports whether it did.
    pub fn offer(&mut self, a: NodeId, b: NodeId) -> (added: bool)
        requires
            old(self).wf(),
            a < old(self).size,
            b < old(self).size,
        ensures
            final(self).wf(),
            final(self).size == old(self).size,
            added == (a != b && !joins(old(self).edges@, a as int, b as int)),
            added ==> final(self).edges@ == old(self).edges@.push((a, b)),
            !added ==> final(self).edges@ == old(self).edges@,
    {
        let n = self.size;
        if a == b {
            return false;
        }
        let idx = pair_index(n, a, b);
        proof {
            if joins(self.edges@, a as int, b as int) {
                let j = choose|j: int|
                    0 <= j < self.edges@.len() && #[trigger] same_pair(
                        self.edges@[j],
                        (a as NodeId, b as NodeId),
                    );
                assert(edge_slot(n as int, self.edges@[j]) == idx);
            }
        }
        if self.present.get(idx) {
            proof {
                let j = choose|j: int|
                    0 <= j < self.edges@.len() && edge_slot(n as int, #[trigger] self.edges@[j]) == idx;
                let e = self.edges@[j];
                let (x, y) = if a < b { (a as int, b as int) } else { (b as int, a as int) };
                let (u, v) = if e.0 < e.1 { (e.0 as int, e.1 as int) } else { (e.1 as int, e.0 as int) };
                lemma_pair_slot_bijective(n as int, x, y, u, v);
                assert(same_pair(self.edges@[j], (a as NodeId, b as NodeId)));
            }
            return false;
        }
        let ghost e0 = self.edges@;
        let ghost p0 = bits_of(self.present);
        self.present.set(idx, true);
        self.edges.push((a, b));
        proof {
            assert forall|k: int|
                0 <= k < pair_count(n as int) implies (#[trigger] bits_of(self.present)[k]
                <==> exists|j: int|
                0 <= j < self.edges@.len() && edge_slot(n as int, #[trigger] self.edges@[j]) == k) by {
                if k == idx {
                    assert(edge_slot(n as int, self.edges@[e0.len() as int]) == k);
                } else if p0[k] {
                    let j = choose|j: int| 0 <= j < e0.len() && edge_slot(n as int, #[trigger] e0[j]) == k;
                    assert(self.edges@[j] == e0[j]);
                } else {
                    if exists|j: int|
                        0 <= j < self.edges@.len() && edge_slot(n as int, #[trigger] self.edges@[j]) == k {
                        let j = choose|j: int|
                            0 <= j < self.edges@.len() && edge_slot(n as int, #[trigger] self.edges@[j]) == k;
                        assert(e0[j] == self.edges@[j]);
                    }
                }
            }
            assert forall|j: int, l: int|
                0 <= j < l < self.edges@.len() implies !#[trigger] same_pair(self.edges@[j], self.edges@[l]) by {
                assert(self.edges@[j] == e0[j]);
                if l < e0.len() {
                    assert(self.edges@[l] == e0[l]);
                } else if same_pair(e0[j], (a, b)) {
                    assert(edge_slot(n as int, e0[j]) == idx);
                }
            }
        }
        true
    }
}

} // verus!
