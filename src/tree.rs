use vstd::prelude::*;

verus! {

/// How often `v` occurs in `s`.
pub open spec fn occurrences(s: Seq<usize>, v: int) -> nat
    decreases s.len(),
{
    if s.len() == 0 {
        0
    } else {
        occurrences(s.drop_first(), v) + if s[0] == v {
            1nat
        } else {
            0nat
        }
    }
}

/// The sum of a table of counts.
pub open spec fn total(s: Seq<usize>) -> int
    decreases s.len(),
{
    if s.len() == 0 {
        0
    } else {
        total(s.drop_last()) + s.last()
    }
}

/// How many entries of a table of counts are not zero.
pub open spec fn nonzero(s: Seq<usize>) -> int
    decreases s.len(),
{
    if s.len() == 0 {
        0
    } else {
        nonzero(s.drop_last()) + if s.last() != 0 {
            1int
        } else {
            0int
        }
    }
}

/// Two edges join the same unordered pair of nodes.
pub open spec fn same_pair(e: (usize, usize), f: (usize, usize)) -> bool {
    (e.0 == f.0 && e.1 == f.1) || (e.0 == f.1 && e.1 == f.0)
}

/// Some edge in `edges` joins the pair `{a, b}`.
pub open spec fn joins(edges: Seq<(usize, usize)>, a: int, b: int) -> bool {
    exists|j: int| 0 <= j < edges.len() && #[trigger] same_pair(edges[j], (a as usize, b as usize))
}

/// `w` is a run of nodes below `n` in which each two neighbours are joined by an edge
/// of `edges`.
pub open spec fn edge_walk(n: int, edges: Seq<(usize, usize)>, w: Seq<usize>) -> bool {
    &&& w.len() >= 1
    &&& forall|i: int| 0 <= i < w.len() ==> #[trigger] w[i] < n
    &&& forall|i: int| 0 <= i < w.len() - 1 ==> joins(edges, #[trigger] w[i] as int, w[i + 1] as int)
}

/// A walk along `edges` leads from `a` to `b`.
pub open spec fn linked(n: int, edges: Seq<(usize, usize)>, a: int, b: int) -> bool {
    exists|w: Seq<usize>| #[trigger] edge_walk(n, edges, w) && w[0] == a && w.last() == b
}

/// Every two nodes below `n` are joined by a walk along `edges`.
pub open spec fn connected(n: int, edges: Seq<(usize, usize)>) -> bool {
    forall|a: int, b: int| 0 <= a < n && 0 <= b < n ==> #[trigger] linked(n, edges, a, b)
}

/// No two entries of an edge list join the same pair.
pub open spec fn distinct_pairs(edges: Seq<(usize, usize)>) -> bool {
    forall|j: int, k: int|
        0 <= j < k < edges.len() ==> !#[trigger] same_pair(edges[j], edges[k])
}

/// Every edge joins two different nodes below `n`.
pub open spec fn proper_edges(n: int, edges: Seq<(usize, usize)>) -> bool {
    forall|j: int|
        0 <= j < edges.len() ==> (#[trigger] edges[j]).0 < n && edges[j].1 < n && edges[j].0
            != edges[j].1
}

/// `v` was taken off as a leaf by one of the edges in `edges`.
pub open spec fn removed(edges: Seq<(usize, usize)>, v: int) -> bool {
    exists|j: int| 0 <= j < edges.len() && (#[trigger] edges[j]).0 == v
}

/// Edge `j` of a decoded sequence joins `seq[j]` to the lowest node that neither
/// occurs in `seq[j..]` nor was taken off by an earlier edge.
pub open spec fn decode_step(n: int, seq: Seq<usize>, edges: Seq<(usize, usize)>, j: int) -> bool {
    let leaf = edges[j].0 as int;
    let rest = seq.subrange(j, seq.len() as int);
    &&& edges[j].1 == seq[j]
    &&& occurrences(rest, leaf) == 0
    &&& !removed(edges.subrange(0, j), leaf)
    &&& forall|v: int|
        0 <= v < leaf ==> occurrences(rest, v) > 0 || removed(edges.subrange(0, j), v)
}

proof fn lemma_total_update(s: Seq<usize>, k: int, x: usize)
    requires
        0 <= k < s.len(),
    ensures
        total(s.update(k, x)) == total(s) - s[k] + x,
        nonzero(s.update(k, x)) == nonzero(s) - (if s[k] != 0 {
            1int
        } else {
            0int
        }) + (if x != 0 {
            1int
        } else {
            0int
        }),
    decreases s.len(),
{
    let t = s.update(k, x);
    if k == s.len() - 1 {
        assert(t.drop_last() =~= s.drop_last());
    } else {
        assert(t.drop_last() =~= s.drop_last().update(k, x));
        lemma_total_update(s.drop_last(), k, x);
    }
}

proof fn lemma_total_at_least_twice_nonzero(s: Seq<usize>)
    requires
        forall|k: int| 0 <= k < s.len() ==> s[k] != 1,
    ensures
        total(s) >= 2 * nonzero(s),
    decreases s.len(),
{
    if s.len() > 0 {
        lemma_total_at_least_twice_nonzero(s.drop_last());
    }
}

proof fn lemma_all_ones(s: Seq<usize>)
    requires
        forall|k: int| 0 <= k < s.len() ==> s[k] == 1,
    ensures
        total(s) == s.len(),
        nonzero(s) == s.len(),
    decreases s.len(),
{
    if s.len() > 0 {
        lemma_all_ones(s.drop_last());
    }
}

proof fn lemma_occurrences_split(s: Seq<usize>, i: int, v: int)
    requires
        0 <= i < s.len(),
    ensures
        occurrences(s.subrange(i, s.len() as int), v) == occurrences(
            s.subrange(i + 1, s.len() as int),
            v,
        ) + if s[i] == v {
            1nat
        } else {
            0nat
        },
{
    assert(s.subrange(i, s.len() as int).drop_first() =~= s.subrange(i + 1, s.len() as int));
}

proof fn lemma_removed_push(edges: Seq<(usize, usize)>, e: (usize, usize), v: int)
    ensures
        removed(edges.push(e), v) == (removed(edges, v) || e.0 == v),
{
    let p = edges.push(e);
    if removed(edges, v) {
        let j = choose|j: int| 0 <= j < edges.len() && (#[trigger] edges[j]).0 == v;
        assert(p[j] == edges[j]);
    }
    if e.0 == v {
        assert(p[edges.len() as int] == e);
    }
    if removed(p, v) && e.0 != v {
        let j = choose|j: int| 0 <= j < p.len() && (#[trigger] p[j]).0 == v;
        assert(edges[j] == p[j]);
    }
}

/// `edges` is what decoding the Prüfer sequence `seq` over `n` nodes gives: `n - 1`
/// distinct edges between distinct nodes, each step joining the lowest current leaf
/// to the next entry, and last the two nodes that no step took off.
pub open spec fn prufer_tree(n: int, seq: Seq<usize>, edges: Seq<(usize, usize)>) -> bool {
    &&& n >= 2
    &&& seq.len() == n - 2
    &&& edges.len() == n - 1
    &&& proper_edges(n, edges)
    &&& distinct_pairs(edges)
    &&& forall|j: int| 0 <= j < n - 2 ==> decode_step(n, seq, edges, j)
    &&& !removed(edges.subrange(0, n - 2), edges[n - 2].0 as int)
    &&& !removed(edges.subrange(0, n - 2), edges[n - 2].1 as int)
    &&& edges[n - 2].0 < edges[n - 2].1
    &&& forall|v: int|
        0 <= v < n ==> #[trigger] removed(edges.subrange(0, n - 2), v) || v == edges[n - 2].0
            || v == edges[n - 2].1
}

proof fn lemma_occurrences_suffix(s: Seq<usize>, j: int, k: int, v: int)
    requires
        0 <= j <= k <= s.len(),
    ensures
        occurrences(s.subrange(k, s.len() as int), v) <= occurrences(s.subrange(j, s.len() as int), v),
    decreases k - j,
{
    if j < k {
        lemma_occurrences_split(s, j, v);
        lemma_occurrences_suffix(s, j + 1, k, v);
    }
}

proof fn lemma_joins_symmetric(edges: Seq<(usize, usize)>, a: int, b: int)
    requires
        joins(edges, a, b),
    ensures
        joins(edges, b, a),
{
    let j = choose|j: int| 0 <= j < edges.len() && #[trigger] same_pair(edges[j], (a as usize, b as usize));
    assert(same_pair(edges[j], (b as usize, a as usize)));
}

proof fn lemma_walk_prepend(n: int, edges: Seq<(usize, usize)>, a: usize, w: Seq<usize>)
    requires
        edge_walk(n, edges, w),
        a < n,
        joins(edges, a as int, w[0] as int),
    ensures
        edge_walk(n, edges, seq![a] + w),
        (seq![a] + w)[0] == a,
        (seq![a] + w).last() == w.last(),
{
    let v = seq![a] + w;
    assert forall|i: int| 0 <= i < v.len() - 1 implies joins(edges, #[trigger] v[i] as int, v[i + 1] as int) by {
        if i > 0 {
            assert(v[i] == w[i - 1] && v[i + 1] == w[i]);
        }
    }
    assert forall|i: int| 0 <= i < v.len() implies #[trigger] v[i] < n by {
        if i > 0 {
            assert(v[i] == w[i - 1]);
        }
    }
}

proof fn lemma_walk_join(n: int, edges: Seq<(usize, usize)>, w1: Seq<usize>, w2: Seq<usize>)
    requires
        edge_walk(n, edges, w1),
        edge_walk(n, edges, w2),
        w2.last() == w1.last(),
    ensures
        exists|w: Seq<usize>| #[trigger] edge_walk(n, edges, w) && w[0] == w1[0] && w.last() == w2[0],
{
    let r = w2.reverse();
    assert forall|i: int| 0 <= i < r.len() - 1 implies joins(edges, #[trigger] r[i] as int, r[i + 1] as int) by {
        let k = w2.len() - 2 - i;
        assert(joins(edges, w2[k] as int, w2[k + 1] as int));
        lemma_joins_symmetric(edges, w2[k] as int, w2[k + 1] as int);
    }
    let w = w1 + r.drop_first();
    assert forall|i: int| 0 <= i < w.len() implies #[trigger] w[i] < n by {
        if i >= w1.len() {
            assert(w[i] == r[i - w1.len() + 1]);
        }
    }
    assert forall|i: int| 0 <= i < w.len() - 1 implies joins(edges, #[trigger] w[i] as int, w[i + 1] as int) by {
        if i < w1.len() - 1 {
        } else if i == w1.len() - 1 {
            assert(w[i] == r[0]);
            assert(w[i + 1] == r[1]);
        } else {
            assert(w[i] == r[i - w1.len() + 1]);
            assert(w[i + 1] == r[i - w1.len() + 2]);
        }
    }
    assert(edge_walk(n, edges, w) && w[0] == w1[0] && w.last() == w2[0]);
}

/// Every leaf taken off at step `k >= j` reaches, along the decoded edges, the first of
/// the two nodes joined last.
proof fn lemma_leaves_reach_root(n: int, seq: Seq<usize>, edges: Seq<(usize, usize)>, j: int)
    requires
        prufer_tree(n, seq, edges),
        0 <= j <= n - 2,
    ensures
        forall|k: int|
            j <= k < n - 2 ==> linked(n, edges, #[trigger] edges[k].0 as int, edges[n - 2].0 as int),
    decreases n - 2 - j,
{
    if j < n - 2 {
        lemma_leaves_reach_root(n, seq, edges, j + 1);
        let u = edges[n - 2].0;
        let v = edges[n - 2].1;
        let leaf = edges[j].0;
        let x = edges[j].1;
        assert(same_pair(edges[j], (leaf as int as usize, x as int as usize)));
        assert(edge_walk(n, edges, seq![x]));
        let tail: Seq<usize> = if x == u {
            seq![u]
        } else if x == v {
            assert(same_pair(edges[n - 2], (v as int as usize, u as int as usize)));
            assert(seq![u][0] == u);
            assert(joins(edges, v as int, u as int));
            lemma_walk_prepend(n, edges, v, seq![u]);
            seq![v] + seq![u]
        } else {
            assert(removed(edges.subrange(0, n - 2), x as int));
            let k = choose|k: int|
                0 <= k < n - 2 && (#[trigger] edges.subrange(0, n - 2)[k]).0 == x as int;
            assert(edges[k].0 == x);
            assert(decode_step(n, seq, edges, j));
            lemma_occurrences_split(seq, j, x as int);
            if k < j {
                assert(decode_step(n, seq, edges, k));
                lemma_occurrences_suffix(seq, k, j, x as int);
            }
            assert(linked(n, edges, edges[k].0 as int, edges[n - 2].0 as int));
            choose|w: Seq<usize>| #[trigger] edge_walk(n, edges, w) && w[0] == edges[k].0 && w.last() == u
        };
        assert(tail[0] == x);
        assert(joins(edges, leaf as int, x as int));
        lemma_walk_prepend(n, edges, leaf, tail);
        assert(edge_walk(n, edges, seq![leaf] + tail));
        assert(linked(n, edges, edges[j].0 as int, edges[n - 2].0 as int));
    }
}

/// The edges decoded from a Prüfer sequence join every two nodes: with its `n - 1`
/// distinct edges, the decoded graph is a spanning tree.
pub proof fn lemma_prufer_tree_connected(n: int, seq: Seq<usize>, edges: Seq<(usize, usize)>)
    requires
        prufer_tree(n, seq, edges),
    ensures
        connected(n, edges),
{
    let u = edges[n - 2].0;
    let v = edges[n - 2].1;
    lemma_leaves_reach_root(n, seq, edges, 0);
    assert(edge_walk(n, edges, seq![u]));
    assert(same_pair(edges[n - 2], (v as int as usize, u as int as usize)));
    assert(seq![u][0] == u);
    assert(joins(edges, v as int, u as int));
    lemma_walk_prepend(n, edges, v, seq![u]);
    assert forall|a: int| 0 <= a < n implies #[trigger] linked(n, edges, a, u as int) by {
        if a == u {
            assert(edge_walk(n, edges, seq![u]) && seq![u][0] == a && seq![u].last() == u);
        } else if a == v {
            assert(edge_walk(n, edges, seq![v] + seq![u]));
        } else {
            assert(removed(edges.subrange(0, n - 2), a));
            let k = choose|k: int| 0 <= k < n - 2 && (#[trigger] edges.subrange(0, n - 2)[k]).0 == a;
            assert(edges[k].0 == a);
            assert(linked(n, edges, edges[k].0 as int, u as int));
        }
    }
    assert forall|a: int, b: int| 0 <= a < n && 0 <= b < n implies #[trigger] linked(n, edges, a, b) by {
        assert(linked(n, edges, a, u as int));
        assert(linked(n, edges, b, u as int));
        let w1 = choose|w: Seq<usize>| #[trigger] edge_walk(n, edges, w) && w[0] == a && w.last() == u;
        let w2 = choose|w: Seq<usize>| #[trigger] edge_walk(n, edges, w) && w[0] == b && w.last() == u;
        lemma_walk_join(n, edges, w1, w2);
    }
}

proof fn lemma_same_prefix_steps(n: int, seq: Seq<usize>, e1: Seq<(usize, usize)>, e2: Seq<(usize, usize)>, j: int)
    requires
        prufer_tree(n, seq, e1),
        prufer_tree(n, seq, e2),
        0 <= j <= n - 2,
    ensures
        e1.subrange(0, j) == e2.subrange(0, j),
    decreases j,
{
    if j > 0 {
        let i = j - 1;
        lemma_same_prefix_steps(n, seq, e1, e2, i);
        assert(decode_step(n, seq, e1, i));
        assert(decode_step(n, seq, e2, i));
        let l1 = e1[i].0 as int;
        let l2 = e2[i].0 as int;
        let rest = seq.subrange(i, seq.len() as int);
        if l1 < l2 {
            assert(occurrences(rest, l1) > 0 || removed(e2.subrange(0, i), l1));
        } else if l2 < l1 {
            assert(occurrences(rest, l2) > 0 || removed(e1.subrange(0, i), l2));
        }
        assert(e1[i] == e2[i]);
        assert(e1.subrange(0, j) =~= e2.subrange(0, j)) by {
            assert forall|t: int| 0 <= t < j implies e1.subrange(0, j)[t] == e2.subrange(0, j)[t] by {
                if t < i {
                    assert(e1.subrange(0, i)[t] == e2.subrange(0, i)[t]);
                }
            }
        }
    }
}

/// A Prüfer sequence decodes to one edge list only: the random spanning tree is a
/// function of the drawn sequence.
pub proof fn lemma_prufer_tree_unique(n: int, seq: Seq<usize>, e1: Seq<(usize, usize)>, e2: Seq<(usize, usize)>)
    requires
        prufer_tree(n, seq, e1),
        prufer_tree(n, seq, e2),
    ensures
        e1 == e2,
{
    lemma_same_prefix_steps(n, seq, e1, e2, n - 2);
    let pre = e1.subrange(0, n - 2);
    let (u1, v1) = (e1[n - 2].0 as int, e1[n - 2].1 as int);
    let (u2, v2) = (e2[n - 2].0 as int, e2[n - 2].1 as int);
    assert(removed(pre, u1) || u1 == u2 || u1 == v2);
    assert(removed(pre, v1) || v1 == u2 || v1 == v2);
    assert(removed(pre, u2) || u2 == u1 || u2 == v1);
    assert(e1[n - 2] == e2[n - 2]);
    assert(e1 =~= e2) by {
        assert forall|t: int| 0 <= t < e1.len() implies e1[t] == e2[t] by {
            if t < n - 2 {
                assert(pre[t] == e1[t]);
                assert(e2.subrange(0, n - 2)[t] == e2[t]);
            }
        }
    }
}

/// The leaf that edge `j` takes off touches no later edge. Put back from the last edge
/// to the first, every edge brings in a node that was not there yet, so no edge of the
/// decoded list closes a cycle.
pub proof fn lemma_prufer_leaf_touches_no_later_edge(
    n: int,
    seq: Seq<usize>,
    edges: Seq<(usize, usize)>,
    j: int,
    k: int,
)
    requires
        prufer_tree(n, seq, edges),
        0 <= j < k <= n - 2,
    ensures
        edges[k].0 != edges[j].0,
        edges[k].1 != edges[j].0,
{
    let leaf = edges[j].0;
    assert(decode_step(n, seq, edges, j));
    assert(edges.subrange(0, k)[j] == edges[j]);
    assert(removed(edges.subrange(0, k), leaf as int));
    if k < n - 2 {
        assert(decode_step(n, seq, edges, k));
        lemma_occurrences_suffix(seq, j, k, leaf as int);
        lemma_occurrences_split(seq, k, leaf as int);
    } else {
        assert(edges.subrange(0, n - 2)[j] == edges[j]);
    }
}

/// Decodes a Prüfer sequence over the nodes `0..size` into the edges of the tree it
/// stands for: each step joins the lowest current leaf to the next entry of the
/// sequence and takes that leaf off; the last two nodes left are joined at the end.
pub fn decode_prufer(size: usize, prufer: &Vec<usize>) -> (edges: Vec<(usize, usize)>)
    requires
        size >= 2,
        prufer@.len() == size - 2,
        forall|i: int| 0 <= i < prufer@.len() ==> prufer@[i] < size,
    ensures
        prufer_tree(size as int, prufer@, edges@),
{
    let n = size;
    let m: usize = size - 2;
    let ghost seq = prufer@;
    let mut degree: Vec<usize> = vec![1; n];
    proof {
        assert(forall|v: int| 0 <= v < n ==> degree@[v] == 1);
        assert(seq.subrange(0, m as int) =~= seq);
        lemma_all_ones(degree@);
    }
    let mut k: usize = 0;
    while k < m
        invariant
            0 <= k <= m,
            m == n - 2,
            seq == prufer@,
            seq.len() == m,
            forall|i: int| 0 <= i < m ==> seq[i] < n,
            degree@.len() == n,
            forall|v: int|
                0 <= v < n ==> degree@[v] + occurrences(seq.subrange(k as int, m as int), v) == 1
                    + occurrences(seq, v),
            forall|v: int| 0 <= v < n ==> degree@[v] <= 1 + k,
            total(degree@) == n + k,
            nonzero(degree@) == n,
            forall|v: int| 0 <= v < n ==> degree@[v] >= 1,
        decreases m - k,
    {
        let id = prufer[k];
        proof {
            lemma_occurrences_split(seq, k as int, 0);
            assert forall|v: int| 0 <= v < n implies occurrences(seq.subrange(k as int, m as int), v)
                == occurrences(seq.subrange(k + 1, m as int), v) + if seq[k as int] == v {
                1nat
            } else {
                0nat
            } by {
                lemma_occurrences_split(seq, k as int, v);
            }
            lemma_total_update(degree@, id as int, (degree@[id as int] + 1) as usize);
        }
        degree.set(id, degree[id] + 1);
        k = k + 1;
    }
    assert(seq.subrange(m as int, m as int) =~= Seq::<usize>::empty());
    let mut edges: Vec<(usize, usize)> = Vec::new();
    let mut i: usize = 0;
    while i < m
        invariant
            0 <= i <= m,
            m == n - 2,
            seq == prufer@,
            seq.len() == m,
            forall|t: int| 0 <= t < m ==> seq[t] < n,
            degree@.len() == n,
            edges@.len() == i,
            forall|v: int|
                0 <= v < n ==> degree@[v] == if removed(edges@, v) {
                    0
                } else {
                    1 + occurrences(seq.subrange(i as int, m as int), v)
                },
            forall|v: int|
                0 <= v < n && removed(edges@, v) ==> occurrences(
                    seq.subrange(i as int, m as int),
                    v,
                ) == 0,
            total(degree@) == 2 * (n - i) - 2,
            nonzero(degree@) == n - i,
            proper_edges(n as int, edges@),
            distinct_pairs(edges@),
            forall|j: int| 0 <= j < i ==> decode_step(n as int, seq, edges@, j),
        decreases m - i,
    {
        let ghost rest = seq.subrange(i as int, m as int);
        proof {
            if forall|v: int| 0 <= v < n ==> degree@[v] != 1 {
                lemma_total_at_least_twice_nonzero(degree@);
            }
        }
        let mut leaf: usize = 0;
        while degree[leaf] != 1
            invariant
                0 <= leaf < n,
                degree@.len() == n,
                forall|v: int| 0 <= v < leaf ==> degree@[v] != 1,
                exists|v: int| leaf <= v < n && degree@[v] == 1,
            decreases n - leaf,
        {
            leaf = leaf + 1;
        }
        let node = prufer[i];
        proof {
            lemma_occurrences_split(seq, i as int, leaf as int);
            lemma_occurrences_split(seq, i as int, node as int);
            assert(!removed(edges@, node as int));
            assert(leaf != node);
        }
        let ghost old_edges = edges@;
        let ghost old_degree = degree@;
        edges.push((leaf, node));
        proof {
            lemma_total_update(old_degree, leaf as int, 0);
            lemma_total_update(old_degree.update(leaf as int, 0), node as int, (old_degree[node as int] - 1) as usize);
            assert forall|v: int| 0 <= v < n implies removed(edges@, v) == (removed(old_edges, v) || leaf == v) by {
                lemma_removed_push(old_edges, (leaf, node), v);
            }
            assert forall|v: int| 0 <= v < n implies occurrences(rest, v)
                == occurrences(seq.subrange(i + 1, m as int), v) + if seq[i as int] == v {
                1nat
            } else {
                0nat
            } by {
                lemma_occurrences_split(seq, i as int, v);
            }
            assert forall|v: int| 0 <= v < n && removed(edges@, v) implies occurrences(
                seq.subrange(i + 1, m as int),
                v,
            ) == 0 by {
                if v != leaf {
                    assert(removed(old_edges, v));
                }
            }
            assert(edges@.subrange(0, i as int) =~= old_edges);
            assert forall|j: int| 0 <= j < i implies decode_step(n as int, seq, edges@, j) by {
                assert(decode_step(n as int, seq, old_edges, j));
                assert(edges@.subrange(0, j) =~= old_edges.subrange(0, j));
                assert(edges@[j] == old_edges[j]);
            }
            assert forall|v: int| 0 <= v < leaf implies occurrences(rest, v) > 0 || removed(old_edges, v) by {
                assert(old_degree[v] != 1);
            }
            assert(decode_step(n as int, seq, edges@, i as int));
            assert forall|j: int, l: int| 0 <= j < l < edges@.len() implies !#[trigger] same_pair(edges@[j], edges@[l]) by {
                if l == i {
                    assert(edges@[j] == old_edges[j]);
                    assert(removed(old_edges, old_edges[j].0 as int));
                } else {
                    assert(edges@[j] == old_edges[j]);
                    assert(edges@[l] == old_edges[l]);
                }
            }
        }
        degree.set(leaf, 0);
        degree.set(node, degree[node] - 1);
        i = i + 1;
    }
    assert(edges@.subrange(0, m as int) =~= edges@);
    let mut remaining: Vec<usize> = Vec::new();
    let mut v: usize = 0;
    while v < n
        invariant
            0 <= v <= n,
            degree@.len() == n,
            forall|u: int| 0 <= u < n ==> degree@[u] <= 1,
            remaining@.len() == nonzero(degree@.subrange(0, v as int)),
            forall|t: int| 0 <= t < remaining@.len() ==> remaining@[t] < v && degree@[remaining@[t] as int] == 1,
            forall|t: int, u: int| 0 <= t < u < remaining@.len() ==> remaining@[t] < remaining@[u],
            forall|u: int| 0 <= u < v && degree@[u] == 1 ==> remaining@.contains(u as usize),
        decreases n - v,
    {
        assert(degree@.subrange(0, v + 1).drop_last() =~= degree@.subrange(0, v as int));
        let ghost r0 = remaining@;
        if degree[v] == 1 {
            remaining.push(v);
            proof {
                assert forall|u: int| 0 <= u < v + 1 && degree@[u] == 1 implies remaining@.contains(u as usize) by {
                    if u < v {
                        let t = choose|t: int| 0 <= t < r0.len() && r0[t] == u as usize;
                        assert(remaining@[t] == r0[t]);
                    } else {
                        assert(remaining@[r0.len() as int] == v);
                    }
                }
            }
        }
        v = v + 1;
    }
    assert(degree@.subrange(0, n as int) =~= degree@);
    let a = remaining[0];
    let b = remaining[1];
    let ghost before = edges@;
    edges.push((a, b));
    proof {
        assert(edges@.subrange(0, m as int) =~= before);
        assert(edges@[m as int] == (a, b));
        assert forall|j: int| 0 <= j < m implies decode_step(n as int, seq, edges@, j) by {
            assert(decode_step(n as int, seq, before, j));
            assert(edges@.subrange(0, j) =~= before.subrange(0, j));
            assert(edges@[j] == before[j]);
        }
        assert forall|u: int| 0 <= u < n implies #[trigger] removed(edges@.subrange(0, m as int), u) || u == a || u == b by {
            if !removed(before, u) {
                assert(degree@[u] == 1);
                assert(remaining@.contains(u as usize));
            }
        }
        assert forall|j: int, l: int| 0 <= j < l < edges@.len() implies !#[trigger] same_pair(edges@[j], edges@[l]) by {
            assert(edges@[j] == before[j]);
            if l == m {
                assert(removed(before, before[j].0 as int));
            } else {
                assert(edges@[l] == before[l]);
            }
        }
    }
    edges
}

} // verus!
