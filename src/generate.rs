use vstd::prelude::*;

use crate::edge_set::EdgeSet;
use crate::graph::{lemma_push_contains, Graph, NodeId};
use crate::pair_index::pair_count;
use crate::random::{draw_below, shuffle_ids};
use crate::tree::{
    decode_prufer, distinct_pairs, edge_walk, joins, lemma_prufer_tree_connected, linked,
    proper_edges, prufer_tree, same_pair,
};

verus! {

/// How many random draws of a pair the completion may spend before it gives up.
pub const DRAW_LIMIT: u64 = 0xffff_ffff_ffff_ffff;

/// The number of edges that a density of `num / den` asks for among `n` nodes: that
/// fraction of all pairs, rounded down.
pub open spec fn density_target(n: int, num: int, den: int) -> int {
    num * pair_count(n) / den
}

/// What a density request over `n` nodes may be given: at least two nodes, a density
/// no greater than one that keeps room for a spanning tree, counts that fit a `usize`,
/// and no more pairs than a bit-vector can hold.
pub open spec fn density_ok(n: int, num: int, den: int) -> bool {
    &&& n >= 2
    &&& n * (n - 1) <= usize::MAX
    &&& pair_count(n) <= usize::MAX / 8
    &&& den > 0
    &&& num <= den
    &&& num * pair_count(n) <= usize::MAX
    &&& density_target(n, num, den) >= n - 1
}

/// `edges` is a completed edge list for a density of `num / den` over `n` nodes: as
/// many distinct edges as the density asks for, starting with a random spanning tree.
pub open spec fn completed(n: int, num: int, den: int, edges: Seq<(NodeId, NodeId)>) -> bool {
    &&& edges.len() == density_target(n, num, den)
    &&& proper_edges(n, edges)
    &&& distinct_pairs(edges)
    &&& exists|seq: Seq<usize>| #[trigger] prufer_tree(n, seq, edges.subrange(0, n - 1))
}

/// The number of edges that a density of `num / den` asks for among `size` nodes.
pub fn edge_target(size: usize, num: usize, den: usize) -> (r: usize)
    requires
        size >= 2,
        size * (size - 1) <= usize::MAX,
        den > 0,
        num * pair_count(size as int) <= usize::MAX,
    ensures
        r == density_target(size as int, num as int, den as int),
{
    proof {
        assert(size * (size - 1) / 2 <= usize::MAX) by (nonlinear_arith)
            requires
                size >= 2,
                size * (size - 1) <= usize::MAX,
        ;
    }
    let pairs: usize = size * (size - 1) / 2;
    num * pairs / den
}

proof fn lemma_joins_push(edges: Seq<(NodeId, NodeId)>, e: (NodeId, NodeId), a: int, b: int)
    requires
        0 <= a <= usize::MAX,
        0 <= b <= usize::MAX,
    ensures
        joins(edges.push(e), a, b) <==> (joins(edges, a, b) || same_pair(e, (a as NodeId, b as NodeId))),
{
    let p = edges.push(e);
    if joins(edges, a, b) {
        let j = choose|j: int| 0 <= j < edges.len() && #[trigger] same_pair(edges[j], (a as NodeId, b as NodeId));
        assert(p[j] == edges[j]);
    }
    if same_pair(e, (a as NodeId, b as NodeId)) {
        assert(p[edges.len() as int] == e);
    }
    if joins(p, a, b) && !same_pair(e, (a as NodeId, b as NodeId)) {
        let j = choose|j: int| 0 <= j < p.len() && #[trigger] same_pair(p[j], (a as NodeId, b as NodeId));
        assert(edges[j] == p[j]);
    }
}

/// A graph that holds exactly a completed edge list is connected: a walk leads from
/// every node to every other, along the spanning tree the list starts with.
pub proof fn lemma_completed_graph_connected(
    g: Graph,
    num: int,
    den: int,
    edges: Seq<(NodeId, NodeId)>,
)
    requires
        g.wf(),
        density_ok(g.size as int, num, den),
        completed(g.size as int, num, den, edges),
        g.holds_exactly(edges),
    ensures
        forall|a: NodeId, b: NodeId| a < g.size && b < g.size ==> #[trigger] g.reaches(a, b),
{
    let n = g.size as int;
    let tree = edges.subrange(0, n - 1);
    let seq = choose|seq: Seq<usize>| #[trigger] prufer_tree(n, seq, tree);
    lemma_prufer_tree_connected(n, seq, tree);
    assert forall|a: NodeId, b: NodeId| a < g.size && b < g.size implies #[trigger] g.reaches(a, b) by {
        assert(linked(n, tree, a as int, b as int));
        let w = choose|w: Seq<usize>| #[trigger] edge_walk(n, tree, w) && w[0] == a as int && w.last() == b as int;
        assert forall|i: int| 0 <= i < w.len() - 1 implies g.nbrs(#[trigger] w[i] as int).contains(w[i + 1]) by {
            assert(joins(tree, w[i] as int, w[i + 1] as int));
            let j = choose|j: int| 0 <= j < tree.len() && #[trigger] same_pair(tree[j], (w[i] as int as usize, w[i + 1] as int as usize));
            assert(edges[j] == tree[j]);
            assert(joins(edges, w[i] as int, w[i + 1] as int));
            assert(w[i] < n && w[i + 1] < n);
        }
        assert(g.is_walk(w));
    }
}

/// The neighbours that adding the edges of `edges` in order appends to the list of node
/// `a`: for each edge that touches `a`, its other end; an edge from `a` to itself
/// appends `a` twice.
pub open spec fn incident(edges: Seq<(NodeId, NodeId)>, a: int) -> Seq<NodeId>
    decreases edges.len(),
{
    if edges.len() == 0 {
        Seq::empty()
    } else {
        let e = edges.last();
        let rest = incident(edges.drop_last(), a);
        if e.0 == a && e.1 == a {
            rest.push(e.0).push(e.1)
        } else if e.1 == a {
            rest.push(e.0)
        } else if e.0 == a {
            rest.push(e.1)
        } else {
            rest
        }
    }
}

proof fn lemma_incident_contains(edges: Seq<(NodeId, NodeId)>, a: int, b: int)
    requires
        0 <= a <= usize::MAX,
        0 <= b <= usize::MAX,
        forall|j: int| 0 <= j < edges.len() ==> (#[trigger] edges[j]).0 != edges[j].1,
    ensures
        incident(edges, a).contains(b as NodeId) <==> joins(edges, a, b),
    decreases edges.len(),
{
    if edges.len() > 0 {
        let init = edges.drop_last();
        let e = edges.last();
        assert(init.push(e) =~= edges);
        assert forall|j: int| 0 <= j < init.len() implies (#[trigger] init[j]).0 != init[j].1 by {
            assert(init[j] == edges[j]);
        }
        lemma_incident_contains(init, a, b);
        lemma_joins_push(init, e, a, b);
        lemma_push_contains(incident(init, a), e.0, b as NodeId);
        lemma_push_contains(incident(init, a), e.1, b as NodeId);
    }
}

proof fn lemma_incident_no_duplicates(edges: Seq<(NodeId, NodeId)>, a: int)
    requires
        0 <= a <= usize::MAX,
        forall|j: int| 0 <= j < edges.len() ==> (#[trigger] edges[j]).0 != edges[j].1,
        distinct_pairs(edges),
    ensures
        incident(edges, a).no_duplicates(),
    decreases edges.len(),
{
    if edges.len() > 0 {
        let init = edges.drop_last();
        let e = edges.last();
        assert forall|j: int| 0 <= j < init.len() implies (#[trigger] init[j]).0 != init[j].1 by {
            assert(init[j] == edges[j]);
        }
        assert forall|j: int, k: int| 0 <= j < k < init.len() implies !#[trigger] same_pair(init[j], init[k]) by {
            assert(init[j] == edges[j] && init[k] == edges[k]);
        }
        lemma_incident_no_duplicates(init, a);
        let r = incident(init, a);
        if e.0 == a || e.1 == a {
            let x = if e.1 == a { e.0 } else { e.1 };
            lemma_incident_contains(init, a, x as int);
            if r.contains(x) {
                let j = choose|j: int| 0 <= j < init.len() && #[trigger] same_pair(init[j], (a as NodeId, x));
                assert(init[j] == edges[j]);
                assert(same_pair(edges[j], edges[edges.len() - 1]));
            }
            assert(incident(edges, a) == r.push(x));
            assert forall|i: int, k: int| 0 <= i < k < r.push(x).len() implies r.push(x)[i] != r.push(x)[k] by {
                if k == r.len() {
                    assert(r.contains(r[i]));
                }
            }
        }
    }
}

/// A graph of `size` nodes whose edges are a random spanning tree completed with random
/// distinct edges up to the density `num / den`; `None` when the draw budget ran out.
/// When the density asks for no more than the tree, no draw can fail and a graph is
/// always returned.
pub fn generate(size: usize, num: usize, den: usize, rng: &mut fastrand::Rng) -> (r: Option<Graph>)
    requires
        density_ok(size as int, num as int, den as int),
    ensures
        density_target(size as int, num as int, den as int) == size - 1 ==> r is Some,
        r matches Some(g) ==> {
            &&& g.wf()
            &&& g.size == size
            &&& exists|edges: Seq<(NodeId, NodeId)>| #[trigger]
                completed(size as int, num as int, den as int, edges) && g.holds_exactly(edges)
                    && forall|a: int| 0 <= a < size ==> #[trigger] g.nbrs(a) == incident(edges, a)
            &&& forall|a: int| 0 <= a < size ==> #[trigger] g.nbrs(a).no_duplicates()
            &&& forall|a: NodeId, b: NodeId| a < size && b < size ==> #[trigger] g.reaches(a, b)
        },
{
    let mut g = Graph::new(size);
    let ghost g0 = g;
    if g.complete_graph(rng, num, den) {
        proof {
            let edges = choose|edges: Seq<(NodeId, NodeId)>| #[trigger]
                completed(size as int, num as int, den as int, edges) && g.extends(g0, edges);
            assert forall|a: int| 0 <= a < size implies #[trigger] g.nbrs(a) == incident(edges, a) by {
                assert(g.nbrs(a) == g0.nbrs(a) + incident(edges, a));
                assert(g0.nbrs(a) + incident(edges, a) =~= incident(edges, a));
            }
            assert(completed(size as int, num as int, den as int, edges) && g.holds_exactly(edges)
                && forall|a: int| 0 <= a < size ==> #[trigger] g.nbrs(a) == incident(edges, a));
            lemma_completed_graph_connected(g, num as int, den as int, edges);
            assert forall|a: int| 0 <= a < size implies #[trigger] g.nbrs(a).no_duplicates() by {
                assert forall|j: int| 0 <= j < edges.len() implies (#[trigger] edges[j]).0 != edges[j].1 by {}
                lemma_incident_no_duplicates(edges, a);
            }
        }
        Some(g)
    } else {
        None
    }
}

impl Graph {
    /// Node `a` lists `b` as a neighbour exactly when some edge of `edges` joins them.
    pub open spec fn holds_exactly(&self, edges: Seq<(NodeId, NodeId)>) -> bool {
        forall|a: int, b: int|
            0 <= a < self.size && 0 <= b < self.size ==> (#[trigger] self.nbrs(a).contains(
                b as NodeId,
            ) <==> joins(edges, a, b))
    }

    /// This graph is `before` with the edges of `edges` added in order: each list is the
    /// list it had, followed by the neighbours the edges bring it; and node `a` lists
    /// `b` exactly when it did before or an edge of `edges` joins them.
    pub open spec fn extends(&self, before: Graph, edges: Seq<(NodeId, NodeId)>) -> bool {
        &&& forall|a: int|
            0 <= a < self.size ==> #[trigger] self.nbrs(a) == before.nbrs(a) + incident(edges, a)
        &&& forall|a: int, b: int|
            0 <= a < self.size && 0 <= b < self.size ==> (#[trigger] self.nbrs(a).contains(
                b as NodeId,
            ) <==> (before.nbrs(a).contains(b as NodeId) || joins(edges, a, b)))
    }

    /// Adds to the graph a random spanning tree and further random distinct edges, as many
    /// as the density `num / den` asks for in all. Returns `false`, and leaves the graph as
    /// it was, when the draw budget ran out first; when the density asks for no more than
    /// the tree, no draw can fail and it returns `true`.
    pub fn complete_graph(&mut self, rng: &mut fastrand::Rng, num: usize, den: usize) -> (done: bool)
        requires
            old(self).wf(),
            density_ok(old(self).size as int, num as int, den as int),
        ensures
            final(self).wf(),
            final(self).size == old(self).size,
            density_target(old(self).size as int, num as int, den as int) == old(self).size - 1 ==> done,
            done ==> exists|edges: Seq<(NodeId, NodeId)>| #[trigger]
                completed(old(self).size as int, num as int, den as int, edges) && final(self).extends(*old(self), edges),
            !done ==> *final(self) == *old(self),
    {
        let n = self.size;
        let found = self.connect_to_density_(rng, num, den);
        match found {
            None => false,
            Some(edges) => {
                let ghost g0 = *self;
                let mut i: usize = 0;
                while i < edges.len()
                    invariant
                        self.wf(),
                        self.size == n,
                        g0.size == n,
                        i <= edges@.len(),
                        proper_edges(n as int, edges@),
                        forall|a: int, b: int|
                            0 <= a < n && 0 <= b < n ==> (#[trigger] self.nbrs(a).contains(
                                b as NodeId,
                            ) <==> (g0.nbrs(a).contains(b as NodeId) || joins(
                                edges@.subrange(0, i as int),
                                a,
                                b,
                            ))),
                        forall|a: int|
                            0 <= a < n ==> #[trigger] self.nbrs(a) == g0.nbrs(a) + incident(
                                edges@.subrange(0, i as int),
                                a,
                            ),
                    decreases edges@.len() - i,
                {
                    let (x, y) = edges[i];
                    let ghost g1 = *self;
                    self.add_edge(x, y);
                    proof {
                        assert(edges@.subrange(0, i + 1) =~= edges@.subrange(0, i as int).push((x, y)));
                        assert forall|a: int, b: int|
                            0 <= a < n && 0 <= b < n implies (#[trigger] self.nbrs(a).contains(
                                b as NodeId,
                            ) <==> (g0.nbrs(a).contains(b as NodeId) || joins(
                                edges@.subrange(0, i + 1),
                                a,
                                b,
                            ))) by {
                            lemma_joins_push(edges@.subrange(0, i as int), (x, y), a, b);
                            lemma_push_contains(g1.nbrs(a), x, b as NodeId);
                            lemma_push_contains(g1.nbrs(a), y, b as NodeId);
                            assert(g1.nbrs(a).contains(b as NodeId) <==> (g0.nbrs(a).contains(b as NodeId) || joins(
                                edges@.subrange(0, i as int), a, b)));
                        }
                        let s0 = edges@.subrange(0, i as int);
                        let s1 = edges@.subrange(0, i + 1);
                        assert(s1.drop_last() =~= s0);
                        assert(s1.last() == (x, y));
                        assert forall|a: int| 0 <= a < n implies #[trigger] self.nbrs(a) == g0.nbrs(a) + incident(s1, a) by {
                            let r = incident(s0, a);
                            assert(g1.nbrs(a) == g0.nbrs(a) + r);
                            assert((g0.nbrs(a) + r).push(x) =~= g0.nbrs(a) + r.push(x));
                            assert((g0.nbrs(a) + r).push(y) =~= g0.nbrs(a) + r.push(y));
                        }
                    }
                    i = i + 1;
                }
                assert(edges@.subrange(0, edges@.len() as int) =~= edges@);
                assert(self.extends(g0, edges@));
                true
            },
        }
    }

    /// A random spanning tree over the nodes of the graph: a random Prüfer sequence,
    /// shuffled, then decoded.
    pub fn min_tree(&self, rng: &mut fastrand::Rng) -> (edges: Vec<(NodeId, NodeId)>)
        requires
            self.size >= 2,
        ensures
            exists|seq: Seq<usize>| #[trigger] prufer_tree(self.size as int, seq, edges@),
    {
        let n = self.size;
        let mut prufer: Vec<NodeId> = Vec::new();
        let mut i: usize = 0;
        while i < n - 2
            invariant
                n == self.size,
                n >= 2,
                i <= n - 2,
                prufer@.len() == i,
                forall|t: int| 0 <= t < i ==> prufer@[t] < n,
            decreases n - 2 - i,
        {
            let id = draw_below(rng, n);
            prufer.push(id);
            i = i + 1;
        }
        let ghost drawn = prufer@;
        shuffle_ids(rng, &mut prufer);
        proof {
            assert forall|t: int| 0 <= t < prufer@.len() implies prufer@[t] < n by {
                let x = prufer@[t];
                assert(prufer@.contains(x));
                vstd::seq_lib::to_multiset_contains(prufer@, x);
                vstd::seq_lib::to_multiset_contains(drawn, x);
            }
        }
        decode_prufer(n, &prufer)
    }

    /// A random spanning tree followed by further random distinct edges, as many as the
    /// density `num / den` asks for in all; `None` when the draw budget ran out first.
    /// When the density asks for no more than the tree, no draw is made and the tree is
    /// returned. The tree edges keep the order in which they were decoded.
    pub fn connect_to_density_(&self, rng: &mut fastrand::Rng, num: usize, den: usize) -> (r: Option<
        Vec<(NodeId, NodeId)>,
    >)
        requires
            density_ok(self.size as int, num as int, den as int),
        ensures
            density_target(self.size as int, num as int, den as int) == self.size - 1 ==> r is Some,
            r matches Some(edges) ==> completed(self.size as int, num as int, den as int, edges@),
    {
        let n = self.size;
        let tree = self.min_tree(rng);
        let target = edge_target(n, num, den);
        let mut set = EdgeSet::empty(n);
        let ghost seq = choose|seq: Seq<usize>| #[trigger] prufer_tree(n as int, seq, tree@);
        let mut i: usize = 0;
        while i < tree.len()
            invariant
                set.wf(),
                set.size == n,
                prufer_tree(n as int, seq, tree@),
                i <= tree@.len(),
                set.edges@ == tree@.subrange(0, i as int),
            decreases tree@.len() - i,
        {
            let (a, b) = tree[i];
            proof {
                if joins(set.edges@, a as int, b as int) {
                    let j = choose|j: int|
                        0 <= j < set.edges@.len() && #[trigger] same_pair(
                            set.edges@[j],
                            (a as NodeId, b as NodeId),
                        );
                    assert(same_pair(tree@[j], tree@[i as int]));
                }
            }
            set.offer(a, b);
            assert(set.edges@ =~= tree@.subrange(0, i + 1));
            i = i + 1;
        }
        assert(tree@.subrange(0, tree@.len() as int) =~= tree@);
        let mut draws: u64 = 0;
        while set.edges.len() < target && draws < DRAW_LIMIT
            invariant
                set.wf(),
                set.size == n,
                n == self.size,
                set.edges@.len() <= target,
                set.edges@.len() >= n - 1,
                tree@.len() == n - 1,
                target == density_target(n as int, num as int, den as int),
                set.edges@.subrange(0, n - 1) == tree@,
                prufer_tree(n as int, seq, tree@),
            decreases DRAW_LIMIT - draws,
        {
            let a = draw_below(rng, n);
            let b = draw_below(rng, n);
            let ghost before = set.edges@;
            let added = set.offer(a, b);
            proof {
                if added {
                    assert(set.edges@.subrange(0, n - 1) =~= before.subrange(0, n - 1));
                }
            }
            draws = draws + 1;
        }
        if set.edges.len() == target {
            Some(set.edges)
        } else {
            None
        }
    }
}

} // verus!
