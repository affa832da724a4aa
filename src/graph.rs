use std::collections::VecDeque;
use vstd::prelude::*;
use vstd::set_lib::{lemma_int_range, lemma_len_subset, set_int_range};

use crate::bits::{bits_of, BitSet};

verus! {

/// A node of a graph: an index in `0..size`.
pub type NodeId = usize;

/// A search state: the queue of nodes waiting, the explored flags, and the node each
/// explored node was reached from.
pub type SearchState = (Seq<NodeId>, Seq<bool>, Seq<Option<NodeId>>);

/// An undirected graph over the nodes `0..size`, kept as one neighbour list per node.
pub struct Graph {
    pub size: usize,
    pub adj: Vec<Vec<NodeId>>,
}

impl Graph {
    /// The neighbour list of node `a`.
    pub open spec fn nbrs(&self, a: int) -> Seq<NodeId> {
        self.adj@[a]@
    }

    /// One list per node, every neighbour a node of the graph, and every edge seen
    /// from both of its ends.
    pub open spec fn wf(&self) -> bool {
        &&& self.adj@.len() == self.size
        &&& forall|a: int, i: int|
            0 <= a < self.size && 0 <= i < self.nbrs(a).len() ==> #[trigger] self.nbrs(a)[i]
                < self.size
        &&& forall|a: int, b: int|
            0 <= a < self.size && 0 <= b < self.size ==> (#[trigger] self.nbrs(a).contains(
                b as NodeId,
            ) <==> #[trigger] self.nbrs(b).contains(a as NodeId))
    }

    /// `w` is a walk: a non-empty run of nodes in which each next node is a neighbour of
    /// the one before it.
    pub open spec fn is_walk(&self, w: Seq<NodeId>) -> bool {
        &&& w.len() >= 1
        &&& forall|i: int| 0 <= i < w.len() ==> #[trigger] w[i] < self.size
        &&& forall|i: int|
            0 <= i < w.len() - 1 ==> self.nbrs(#[trigger] w[i] as int).contains(w[i + 1])
    }

    /// Some walk leads from `a` to `b`.
    pub open spec fn reaches(&self, a: NodeId, b: NodeId) -> bool {
        exists|w: Seq<NodeId>| #[trigger] self.is_walk(w) && w[0] == a && w.last() == b
    }

    /// A graph of `size` nodes and no edges.
    pub fn new(size: usize) -> (g: Graph)
        ensures
            g.wf(),
            g.size == size,
            forall|a: int| 0 <= a < size ==> #[trigger] g.nbrs(a) == Seq::<NodeId>::empty(),
    {
        let mut adj: Vec<Vec<NodeId>> = Vec::new();
        let mut i: usize = 0;
        while i < size
            invariant
                i <= size,
                adj@.len() == i,
                forall|a: int| 0 <= a < i ==> (#[trigger] adj@[a])@ == Seq::<NodeId>::empty(),
            decreases size - i,
        {
            adj.push(Vec::new());
            i = i + 1;
        }
        Graph { size, adj }
    }

    /// Joins `to` and `from`: each is appended to the other's neighbour list.
    pub fn add_edge(&mut self, to: NodeId, from: NodeId)
        requires
            old(self).wf(),
            to < old(self).size,
            from < old(self).size,
        ensures
            final(self).wf(),
            final(self).size == old(self).size,
            to != from ==> final(self).nbrs(from as int) == old(self).nbrs(from as int).push(to),
            to != from ==> final(self).nbrs(to as int) == old(self).nbrs(to as int).push(from),
            to == from ==> final(self).nbrs(to as int) == old(self).nbrs(to as int).push(to).push(
                to,
            ),
            forall|a: int|
                0 <= a < old(self).size && a != to && a != from ==> #[trigger] final(self).nbrs(a)
                    == old(self).nbrs(a),
    {
        let ghost g0 = *self;
        self.adj[from].push(to);
        self.adj[to].push(from);
        proof {
            assert forall|a: int, b: int|
                0 <= a < self.size && 0 <= b < self.size implies (#[trigger] self.nbrs(a).contains(
                b as NodeId,
            ) <==> #[trigger] self.nbrs(b).contains(a as NodeId)) by {
                assert(g0.nbrs(a).contains(b as NodeId) <==> g0.nbrs(b).contains(a as NodeId));
                lemma_push_contains(g0.nbrs(a), to, b as NodeId);
                lemma_push_contains(g0.nbrs(a), from, b as NodeId);
                lemma_push_contains(g0.nbrs(b), to, a as NodeId);
                lemma_push_contains(g0.nbrs(b), from, a as NodeId);
                lemma_push_contains(g0.nbrs(a).push(to), from, b as NodeId);
                lemma_push_contains(g0.nbrs(b).push(to), from, a as NodeId);
                lemma_push_contains(g0.nbrs(a).push(from), to, b as NodeId);
                lemma_push_contains(g0.nbrs(b).push(from), to, a as NodeId);
            }
            assert forall|a: int, i: int|
                0 <= a < self.size && 0 <= i < self.nbrs(a).len() implies #[trigger] self.nbrs(
                a,
            )[i] < self.size by {
                if i < g0.nbrs(a).len() {
                    assert(self.nbrs(a)[i] == g0.nbrs(a)[i]);
                }
            }
        }
    }

    /// Marks `v`, a neighbour of `cur`, as reached from `cur` and queues it, unless it
    /// was explored already.
    pub open spec fn visit(&self, st: SearchState, cur: NodeId, v: NodeId) -> SearchState {
        if st.1[v as int] {
            st
        } else {
            (st.0.push(v), st.1.update(v as int, true), st.2.update(v as int, Some(cur)))
        }
    }

    /// Visits the neighbours of `cur` from place `i` of its list on, in list order.
    pub open spec fn expand(&self, st: SearchState, cur: NodeId, i: int) -> SearchState
        decreases self.nbrs(cur as int).len() - i,
    {
        if 0 <= i < self.nbrs(cur as int).len() {
            self.expand(self.visit(st, cur, self.nbrs(cur as int)[i]), cur, i + 1)
        } else {
            st
        }
    }

    /// Breadth-first search for `dest` for at most `fuel` rounds: each round takes the
    /// node at the front of the queue and, unless it is `dest`, expands it. The result
    /// is the table of parents when `dest` comes to the front.
    pub open spec fn search(&self, st: SearchState, dest: NodeId, fuel: nat) -> Option<Seq<Option<NodeId>>>
        decreases fuel,
    {
        if fuel == 0 || st.0.len() == 0 {
            None
        } else if st.0[0] == dest {
            Some(st.2)
        } else {
            self.search(self.expand((st.0.drop_first(), st.1, st.2), st.0[0], 0), dest, (fuel - 1) as nat)
        }
    }

    /// The state a search from `start` begins in: `start` queued and alone explored.
    pub open spec fn initial_state(&self, start: NodeId) -> SearchState {
        (
            seq![start],
            Seq::new(self.size as nat, |v: int| v == start),
            Seq::new(self.size as nat, |v: int| None::<NodeId>),
        )
    }

    /// The search from `start`, with one round per node and one more.
    pub open spec fn search_from(&self, start: NodeId, dest: NodeId) -> Option<Seq<Option<NodeId>>> {
        self.search(self.initial_state(start), dest, (self.size + 1) as nat)
    }

    /// `p` is the chain of parents from a node without one down to `p.last()`.
    pub open spec fn follows_parents(parent: Seq<Option<NodeId>>, p: Seq<NodeId>) -> bool {
        &&& parent[p[0] as int] is None
        &&& forall|i: int| 1 <= i < p.len() ==> parent[#[trigger] p[i] as int] == Some(p[i - 1])
    }

    /// Every neighbour of the explored node `v` is explored, and lies at most one
    /// layer beyond it.
    pub open spec fn closed_at(&self, bits: Seq<bool>, dist: Seq<int>, v: int) -> bool {
        &&& 0 <= v < self.size
        &&& bits[v]
        &&& forall|t: int|
            0 <= t < self.nbrs(v).len() ==> bits[#[trigger] self.nbrs(v)[t] as int] && dist[self.nbrs(
                v,
            )[t] as int] <= dist[v] + 1
    }

    /// The explored node `v` lies in layer `dist[v]`, and unless it is `start` it was
    /// reached from an explored neighbour one layer closer.
    pub open spec fn parent_ok(
        &self,
        bits: Seq<bool>,
        dist: Seq<int>,
        parent: Seq<Option<NodeId>>,
        start: NodeId,
        v: int,
    ) -> bool {
        &&& dist[v] >= 0
        &&& v != start ==> match parent[v] {
            Some(u) => u < self.size && bits[u as int] && self.nbrs(u as int).contains(v as NodeId)
                && dist[v] == dist[u as int] + 1,
            None => false,
        }
    }

    /// Along any walk from `start`, the first node that is not yet closed is waiting
    /// in the queue no deeper than its place on the walk; a walk whose nodes are all
    /// closed ends no deeper than its length.
    proof fn lemma_frontier(
        &self,
        bits: Seq<bool>,
        q: Seq<NodeId>,
        done: Set<int>,
        dist: Seq<int>,
        start: NodeId,
        w: Seq<NodeId>,
        k: int,
    )
        requires
            self.wf(),
            bits.len() == self.size,
            dist.len() == self.size,
            forall|v: int|
                0 <= v < self.size ==> (#[trigger] bits[v] <==> (done.contains(v) || q.contains(
                    v as NodeId,
                ))),
            forall|v: int| #[trigger] done.contains(v) ==> self.closed_at(bits, dist, v),
            start < self.size,
            bits[start as int],
            dist[start as int] == 0,
            self.is_walk(w),
            w[0] == start,
            0 <= k < w.len(),
        ensures
            (exists|j: int| 0 <= j <= k && q.contains(#[trigger] w[j]) && dist[w[j] as int] <= j)
                || (done.contains(w[k] as int) && dist[w[k] as int] <= k),
        decreases k,
    {
        if k > 0 {
            self.lemma_frontier(bits, q, done, dist, start, w, k - 1);
            if !(exists|j: int| 0 <= j <= k - 1 && q.contains(#[trigger] w[j]) && dist[w[j] as int] <= j) {
                let a = w[k - 1] as int;
                assert(self.closed_at(bits, dist, a));
                assert(self.nbrs(a).contains(w[k]));
                let t = choose|t: int| 0 <= t < self.nbrs(a).len() && self.nbrs(a)[t] == w[k];
                assert(bits[self.nbrs(a)[t] as int]);
                assert(w[k] < self.size);
                if q.contains(w[k]) {
                    assert(0 <= k <= k && q.contains(w[k]) && dist[w[k] as int] <= k);
                }
            } else {
                let j = choose|j: int| 0 <= j <= k - 1 && q.contains(#[trigger] w[j]) && dist[w[j] as int] <= j;
                assert(0 <= j <= k && q.contains(w[j]) && dist[w[j] as int] <= j);
            }
        } else {
            if q.contains(w[0]) {
                assert(0 <= 0 <= k && q.contains(w[0]) && dist[w[0] as int] <= 0);
            }
        }
    }

    /// Follows the parent links back from `dest` to `start` and returns the path they
    /// trace, from `start` to `dest`.
    fn trace_back(
        &self,
        parent: &Vec<Option<NodeId>>,
        Ghost(bits): Ghost<Seq<bool>>,
        Ghost(dist): Ghost<Seq<int>>,
        start: NodeId,
        dest: NodeId,
    ) -> (p: Vec<NodeId>)
        requires
            self.wf(),
            parent@.len() == self.size,
            bits.len() == self.size,
            dist.len() == self.size,
            start < self.size,
            dest < self.size,
            bits[dest as int],
            dist[start as int] == 0,
            parent@[start as int] is None,
            forall|v: int|
                0 <= v < self.size && #[trigger] bits[v] ==> self.parent_ok(bits, dist, parent@, start, v),
        ensures
            self.is_walk(p@),
            p@[0] == start,
            p@.last() == dest,
            p@.len() == dist[dest as int] + 1,
            Graph::follows_parents(parent@, p@),
    {
        let mut back: Vec<NodeId> = Vec::new();
        let mut v = dest;
        while parent[v].is_some()
            invariant
                self.wf(),
                parent@.len() == self.size,
                bits.len() == self.size,
                dist.len() == self.size,
                start < self.size,
                dest < self.size,
                dist[start as int] == 0,
                parent@[start as int] is None,
                forall|u: int|
                    0 <= u < self.size && #[trigger] bits[u] ==> self.parent_ok(bits, dist, parent@, start, u),
                v < self.size,
                bits[v as int],
                back@.len() == dist[dest as int] - dist[v as int],
                forall|t: int| 0 <= t < back@.len() ==> #[trigger] back@[t] < self.size,
                back@.len() == 0 ==> v == dest,
                back@.len() > 0 ==> back@[0] == dest && self.nbrs(v as int).contains(back@.last()),
                forall|t: int|
                    0 <= t < back@.len() - 1 ==> self.nbrs(#[trigger] back@[t + 1] as int).contains(back@[t]),
                forall|t: int|
                    0 <= t < back@.len() - 1 ==> parent@[#[trigger] back@[t] as int] == Some(back@[t + 1]),
                back@.len() > 0 ==> parent@[back@.last() as int] == Some(v),
            decreases dist[v as int],
        {
            assert(self.parent_ok(bits, dist, parent@, start, v as int));
            back.push(v);
            v = parent[v].unwrap();
        }
        assert(self.parent_ok(bits, dist, parent@, start, v as int));
        back.push(v);
        let mut path: Vec<NodeId> = Vec::new();
        let mut t: usize = back.len();
        while t > 0
            invariant
                t <= back@.len(),
                path@.len() == back@.len() - t,
                forall|i: int| 0 <= i < path@.len() ==> path@[i] == back@[back@.len() - 1 - i],
            decreases t,
        {
            t = t - 1;
            path.push(back[t]);
        }
        proof {
            let l = back@.len() as int;
            assert forall|i: int| 0 <= i < path@.len() - 1 implies self.nbrs(#[trigger] path@[i] as int).contains(path@[i + 1]) by {
                assert(path@[i] == back@[l - 1 - i]);
                assert(path@[i + 1] == back@[l - 2 - i]);
                assert(back@[(l - 2 - i) + 1] == back@[l - 1 - i]);
            }
            assert forall|i: int| 0 <= i < path@.len() implies #[trigger] path@[i] < self.size by {
                assert(path@[i] == back@[l - 1 - i]);
            }
            assert forall|i: int| 1 <= i < path@.len() implies parent@[#[trigger] path@[i] as int] == Some(path@[i - 1]) by {
                assert(path@[i] == back@[l - 1 - i]);
                assert(path@[i - 1] == back@[(l - 1 - i) + 1]);
            }
            assert(path@[0] == back@[l - 1]);
        }
        path
    }

    /// Breadth-first search from `start`: the nodes on a path with the fewest edges
    /// from `start` to `dest`, both included, or `None` when no path joins them.
    pub fn bfs(&self, start: NodeId, dest: NodeId) -> (r: Option<Vec<NodeId>>)
        requires
            self.wf(),
            start < self.size,
            dest < self.size,
            self.size <= usize::MAX / 8,
        ensures
            r is None <==> !self.reaches(start, dest),
            start == dest ==> (r matches Some(p) && p@ == seq![start]),
            r is None ==> self.search_from(start, dest) is None,
            r matches Some(p) ==> (self.search_from(start, dest) matches Some(par)
                && Graph::follows_parents(par, p@)),
            r matches Some(p) ==> {
                &&& self.is_walk(p@)
                &&& p@[0] == start
                &&& p@.last() == dest
                &&& forall|w: Seq<NodeId>|
                    #![trigger self.is_walk(w)]
                    self.is_walk(w) && w[0] == start && w.last() == dest ==> p@.len() <= w.len()
            },
    {
        let n = self.size;
        let mut explored = BitSet::zeroed(n);
        let mut queue: VecDeque<NodeId> = VecDeque::new();
        let mut parent: Vec<Option<NodeId>> = Vec::new();
        let mut k: usize = 0;
        while k < n
            invariant
                k <= n,
                parent@.len() == k,
                forall|v: int| 0 <= v < k ==> parent@[v] is None,
            decreases n - k,
        {
            parent.push(None);
            k = k + 1;
        }
        let ghost mut dist: Seq<int> = Seq::new(n as nat, |v: int| 0);
        let ghost mut done: Set<int> = Set::empty();
        let ghost mut seen: Set<int> = set![start as int];
        let ghost mut iters: int = 0;
        queue.push_back(start);
        explored.set(start, true);
        proof {
            assert(seen =~= Set::new(|v: int| 0 <= v < n && bits_of(explored)[v]));
            assert(queue@[0] == start);
            let init = self.initial_state(start);
            assert(queue@ =~= init.0);
            assert(bits_of(explored) =~= init.1);
            assert(parent@ =~= init.2);
            assert((queue@, bits_of(explored), parent@) == init);
            assert forall|v: int| 0 <= v < n implies (#[trigger] bits_of(explored)[v] <==> (done.contains(v)
                || queue@.contains(v as NodeId))) by {
                if queue@.contains(v as NodeId) {
                    let t = choose|t: int| 0 <= t < queue@.len() && queue@[t] == v as NodeId;
                    assert(t == 0);
                }
            }
        }
        while queue.len() > 0
            invariant
                self.wf(),
                n == self.size,
                start < n,
                dest < n,
                bits_of(explored).len() == n,
                parent@.len() == n,
                dist.len() == n,
                seen == Set::new(|v: int| 0 <= v < n && bits_of(explored)[v]),
                forall|v: int|
                    0 <= v < n ==> (#[trigger] bits_of(explored)[v] <==> (done.contains(v)
                        || queue@.contains(v as NodeId))),
                forall|v: int| #[trigger]
                    done.contains(v) ==> self.closed_at(bits_of(explored), dist, v) && v != dest,
                forall|i: int| 0 <= i < queue@.len() ==> #[trigger] queue@[i] < n,
                forall|i: int, j: int|
                    0 <= i < j < queue@.len() ==> dist[queue@[i] as int] <= dist[queue@[j] as int],
                forall|i: int|
                    0 <= i < queue@.len() ==> dist[#[trigger] queue@[i] as int] <= dist[queue@[0] as int] + 1,
                queue@.len() > 0 ==> forall|v: int|
                    0 <= v < n && #[trigger] bits_of(explored)[v] ==> dist[v] <= dist[queue@[0] as int] + 1,
                bits_of(explored)[start as int],
                dist[start as int] == 0,
                parent@[start as int] is None,
                forall|v: int|
                    0 <= v < n && #[trigger] bits_of(explored)[v] ==> self.parent_ok(bits_of(explored), dist, parent@, start, v),
                iters >= 0,
                iters + queue@.len() == seen.len(),
                self.search((queue@, bits_of(explored), parent@), dest, (n + 1 - iters) as nat)
                    == self.search_from(start, dest),
            decreases 2 * (n - seen.len()) + queue@.len(),
        {
            proof {
                lemma_int_range(0, n as int);
                lemma_len_subset(seen, set_int_range(0, n as int));
            }
            let ghost q0 = queue@;
            let ghost s0: SearchState = (queue@, bits_of(explored), parent@);
            let ghost f: nat = (n + 1 - iters) as nat;
            let ghost m0 = 2 * (n - seen.len()) + queue@.len();
            let cur = queue.pop_front().unwrap();
            proof {
                iters = iters + 1;
                assert(queue@ =~= q0.drop_first());
            }
            let ghost e: SearchState = self.expand((queue@, bits_of(explored), parent@), cur, 0);
            if cur == dest {
                proof {
                    assert(self.search(s0, dest, f) == Some(parent@));
                    assert forall|w: Seq<NodeId>|
                        #![trigger self.is_walk(w)]
                        self.is_walk(w) && w[0] == start && w.last() == dest implies dist[dest as int] + 1 <= w.len() by {
                        self.lemma_frontier(bits_of(explored), q0, done, dist, start, w, w.len() - 1);
                        if exists|j: int| 0 <= j <= w.len() - 1 && q0.contains(#[trigger] w[j]) && dist[w[j] as int] <= j {
                            let j = choose|j: int| 0 <= j <= w.len() - 1 && q0.contains(#[trigger] w[j]) && dist[w[j] as int] <= j;
                            let t = choose|t: int| 0 <= t < q0.len() && q0[t] == w[j];
                            if t > 0 {
                                assert(dist[q0[0] as int] <= dist[q0[t] as int]);
                            }
                        }
                    }
                }
                let path = self.trace_back(&parent, Ghost(bits_of(explored)), Ghost(dist), start, cur);
                proof {
                    if start == dest {
                        assert(path@ =~= seq![start]);
                    }
                }
                return Some(path);
            }
            proof {
                assert(self.search(s0, dest, f) == self.search(e, dest, (f - 1) as nat));
            }
            let ghost f = dist[cur as int];
            proof {
                assert forall|v: int| 0 <= v < n implies (#[trigger] bits_of(explored)[v] <==> (done.contains(v)
                    || v == cur || queue@.contains(v as NodeId))) by {
                    if q0.contains(v as NodeId) && v != cur {
                        let t = choose|t: int| 0 <= t < q0.len() && q0[t] == v as NodeId;
                        assert(queue@[t - 1] == q0[t]);
                    }
                    if queue@.contains(v as NodeId) {
                        let t = choose|t: int| 0 <= t < queue@.len() && queue@[t] == v as NodeId;
                        assert(q0[t + 1] == queue@[t]);
                    }
                    if v == cur {
                        assert(q0[0] == cur);
                    }
                }
            }
            let adj_cur = &self.adj[cur];
            let mut i: usize = 0;
            while i < adj_cur.len()
                invariant
                    self.wf(),
                    n == self.size,
                    start < n,
                    dest < n,
                    cur < n,
                    cur != dest,
                    adj_cur@ == self.nbrs(cur as int),
                    i <= adj_cur@.len(),
                    bits_of(explored).len() == n,
                    parent@.len() == n,
                    dist.len() == n,
                    f == dist[cur as int],
                    bits_of(explored)[cur as int],
                    seen == Set::new(|v: int| 0 <= v < n && bits_of(explored)[v]),
                    forall|v: int|
                        0 <= v < n ==> (#[trigger] bits_of(explored)[v] <==> (done.contains(v)
                            || v == cur || queue@.contains(v as NodeId))),
                    forall|v: int| #[trigger]
                        done.contains(v) ==> self.closed_at(bits_of(explored), dist, v) && v != dest,
                    forall|t: int| 0 <= t < i ==> bits_of(explored)[#[trigger] adj_cur@[t] as int] && dist[adj_cur@[t] as int] <= f + 1,
                    forall|t: int| 0 <= t < queue@.len() ==> #[trigger] queue@[t] < n,
                    forall|t: int, j: int|
                        0 <= t < j < queue@.len() ==> dist[queue@[t] as int] <= dist[queue@[j] as int],
                    forall|t: int|
                        0 <= t < queue@.len() ==> f <= dist[#[trigger] queue@[t] as int] <= f + 1,
                    forall|v: int|
                        0 <= v < n && #[trigger] bits_of(explored)[v] ==> dist[v] <= f + 1,
                    bits_of(explored)[start as int],
                    dist[start as int] == 0,
                    parent@[start as int] is None,
                    forall|v: int|
                        0 <= v < n && #[trigger] bits_of(explored)[v] ==> self.parent_ok(bits_of(explored), dist, parent@, start, v),
                    seen.finite(),
                    2 * (n - seen.len()) + queue@.len() <= m0 - 1,
                    iters >= 1,
                    iters + queue@.len() == seen.len(),
                    self.expand((queue@, bits_of(explored), parent@), cur, i as int) == e,
                    self.search(e, dest, (n + 1 - iters) as nat) == self.search_from(start, dest),
                decreases adj_cur@.len() - i,
            {
                let nb = adj_cur[i];
                let ghost st: SearchState = (queue@, bits_of(explored), parent@);
                proof {
                    assert(self.nbrs(cur as int)[i as int] == nb);
                    assert(self.expand(st, cur, i as int) == self.expand(self.visit(st, cur, nb), cur, i + 1));
                }
                if !explored.get(nb) {
                    let ghost b0 = bits_of(explored);
                    let ghost d0 = dist;
                    let ghost p0 = parent@;
                    explored.set(nb, true);
                    parent.set(nb, Some(cur));
                    proof {
                        assert(self.parent_ok(b0, d0, p0, start, cur as int));
                        dist = dist.update(nb as int, f + 1);
                        assert(!seen.contains(nb as int));
                        seen = seen.insert(nb as int);
                        assert(seen =~= Set::new(|v: int| 0 <= v < n && bits_of(explored)[v]));
                        assert forall|v: int| #[trigger] done.contains(v) implies self.closed_at(bits_of(explored), dist, v) by {
                            assert(self.closed_at(b0, d0, v));
                            assert forall|t: int| 0 <= t < self.nbrs(v).len() implies bits_of(explored)[#[trigger] self.nbrs(v)[t] as int]
                                && dist[self.nbrs(v)[t] as int] <= dist[v] + 1 by {
                                assert(b0[self.nbrs(v)[t] as int]);
                            }
                        }
                        assert forall|v: int|
                            0 <= v < n && #[trigger] bits_of(explored)[v] implies self.parent_ok(bits_of(explored), dist, parent@, start, v) by {
                            if v != nb {
                                assert(self.parent_ok(b0, d0, p0, start, v));
                            } else {
                                assert(adj_cur@[i as int] == nb);
                            }
                        }
                    }
                    let ghost qb = queue@;
                    queue.push_back(nb);
                    proof {
                        assert forall|v: int| 0 <= v < n implies (#[trigger] bits_of(explored)[v] <==> (done.contains(v)
                            || v == cur || queue@.contains(v as NodeId))) by {
                            lemma_push_contains(qb, nb, v as NodeId);
                        }
                        assert((queue@, bits_of(explored), parent@) == self.visit(st, cur, nb));
                    }
                }
                i = i + 1;
            }
            proof {
                done = done.insert(cur as int);
                lemma_int_range(0, n as int);
                lemma_len_subset(seen, set_int_range(0, n as int));
            }
        }
        proof {
            assert forall|w: Seq<NodeId>|
                #![trigger self.is_walk(w)]
                self.is_walk(w) && w[0] == start implies w.last() != dest by {
                self.lemma_frontier(bits_of(explored), queue@, done, dist, start, w, w.len() - 1);
            }
            assert(self.is_walk(seq![start]));
        }
        None
    }
}

pub(crate) proof fn lemma_push_contains(s: Seq<NodeId>, x: NodeId, y: NodeId)
    ensures
        s.push(x).contains(y) <==> (s.contains(y) || x == y),
{
    if s.contains(y) {
        let i = choose|i: int| 0 <= i < s.len() && s[i] == y;
        assert(s.push(x)[i] == y);
    }
    assert(s.push(x)[s.len() as int] == x);
    if s.push(x).contains(y) && x != y {
        let i = choose|i: int| 0 <= i < s.push(x).len() && s.push(x)[i] == y;
        assert(s[i] == y);
    }
}

} // verus!
