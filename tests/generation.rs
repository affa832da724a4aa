use bfs::edge_set::EdgeSet;
use bfs::generate::{edge_target, generate};
use bfs::graph::Graph;
use bfs::pair_index::pair_index;
use bfs::tree::decode_prufer;
use std::collections::HashSet;

fn unordered(a: usize, b: usize) -> (usize, usize) {
    if a < b {
        (a, b)
    } else {
        (b, a)
    }
}

fn assert_spanning_tree(size: usize, edges: &[(usize, usize)]) {
    assert_eq!(edges.len(), size - 1);
    let mut seen = HashSet::new();
    for &(a, b) in edges {
        assert!(a < size && b < size);
        assert_ne!(a, b);
        assert!(seen.insert(unordered(a, b)), "duplicate edge {:?}", (a, b));
    }
    let mut g = Graph::new(size);
    for &(a, b) in edges {
        g.add_edge(a, b);
    }
    for t in 0..size {
        assert!(g.bfs(0, t).is_some());
    }
}

#[test]
fn pair_index_exact_values() {
    assert_eq!(pair_index(4, 0, 1), 0);
    assert_eq!(pair_index(4, 0, 2), 1);
    assert_eq!(pair_index(4, 0, 3), 2);
    assert_eq!(pair_index(4, 1, 2), 3);
    assert_eq!(pair_index(4, 1, 3), 4);
    assert_eq!(pair_index(4, 2, 3), 5);
    assert_eq!(pair_index(4, 3, 2), 5);
    assert_eq!(pair_index(2, 1, 0), 0);
}

#[test]
fn pair_index_is_one_to_one() {
    for size in 2..25usize {
        let mut seen = vec![false; size * (size - 1) / 2];
        for a in 0..size {
            for b in (a + 1)..size {
                let k = pair_index(size, a, b);
                assert_eq!(k, pair_index(size, b, a));
                assert!(k < seen.len());
                assert!(!seen[k]);
                seen[k] = true;
            }
        }
        assert!(seen.iter().all(|&x| x));
    }
}

#[test]
fn decode_known_sequence() {
    let edges = decode_prufer(6, &vec![3, 3, 3, 4]);
    assert_eq!(edges, vec![(0, 3), (1, 3), (2, 3), (3, 4), (4, 5)]);
}

#[test]
fn decode_two_nodes() {
    assert_eq!(decode_prufer(2, &vec![]), vec![(0, 1)]);
}

#[test]
fn decode_path_sequence() {
    assert_eq!(decode_prufer(4, &vec![1, 2]), vec![(0, 1), (1, 2), (2, 3)]);
}

#[test]
fn decode_every_sequence_of_five_nodes() {
    let n = 5usize;
    let mut trees = HashSet::new();
    for x in 0..n {
        for y in 0..n {
            for z in 0..n {
                let edges = decode_prufer(n, &vec![x, y, z]);
                assert_spanning_tree(n, &edges);
                let mut key: Vec<(usize, usize)> =
                    edges.iter().map(|&(a, b)| unordered(a, b)).collect();
                key.sort();
                trees.insert(key);
            }
        }
    }
    // Cayley: 5^3 labelled trees on five nodes, one per sequence
    assert_eq!(trees.len(), 125);
}

#[test]
fn min_tree_is_a_spanning_tree() {
    let mut rng = fastrand::Rng::with_seed(11);
    for size in 2..40 {
        let g = Graph::new(size);
        let edges = g.min_tree(&mut rng);
        assert_spanning_tree(size, &edges);
    }
}

#[test]
fn edge_set_rejects_loops_and_repeats() {
    let mut set = EdgeSet::empty(4);
    assert!(!set.offer(2, 2));
    assert!(set.offer(1, 3));
    assert!(!set.offer(1, 3));
    assert!(!set.offer(3, 1));
    assert!(set.offer(0, 3));
    assert!(set.present.get(pair_index(4, 1, 3)));
    assert!(!set.present.get(pair_index(4, 0, 1)));
    assert_eq!(set.edges, vec![(1, 3), (0, 3)]);
}

#[test]
fn edge_target_rounds_down() {
    assert_eq!(edge_target(100, 2, 100), 99);
    assert_eq!(edge_target(10, 1, 3), 15);
    assert_eq!(edge_target(4, 1, 1), 6);
    assert_eq!(edge_target(2, 1, 1), 1);
}

fn edge_count(g: &Graph) -> usize {
    g.adj.iter().map(|l| l.len()).sum::<usize>() / 2
}

#[test]
fn generate_hits_the_target_and_connects() {
    let mut rng = fastrand::Rng::with_seed(3);
    for &(size, num, den) in &[(2usize, 1usize, 1usize), (10, 1, 2), (30, 1, 10), (50, 1, 1), (100, 2, 100)] {
        let g = generate(size, num, den, &mut rng).expect("draw budget");
        assert_eq!(g.size, size);
        assert_eq!(edge_count(&g), edge_target(size, num, den));
        let mut pairs = HashSet::new();
        for a in 0..size {
            for &b in &g.adj[a] {
                assert_ne!(a, b);
                assert!(g.adj[b].contains(&a));
                pairs.insert(unordered(a, b));
            }
        }
        assert_eq!(pairs.len(), edge_count(&g));
        for t in 0..size {
            assert!(g.bfs(0, t).is_some());
            assert!(g.bfs(t, 0).is_some());
        }
    }
}

#[test]
fn connect_to_density_lists_distinct_edges() {
    let mut rng = fastrand::Rng::with_seed(5);
    let g = Graph::new(20);
    let edges = g.connect_to_density_(&mut rng, 3, 10).expect("draw budget");
    assert_eq!(edges.len(), 57);
    let set: HashSet<(usize, usize)> = edges.iter().map(|&(a, b)| unordered(a, b)).collect();
    assert_eq!(set.len(), 57);
    assert_spanning_tree(20, &edges[..19]);
}

#[test]
fn complete_graph_adds_to_existing_edges() {
    let mut rng = fastrand::Rng::with_seed(9);
    let mut g = Graph::new(8);
    assert!(g.complete_graph(&mut rng, 1, 4));
    assert_eq!(edge_count(&g), 7);
}

#[test]
fn same_seed_same_graph() {
    let mut r1 = fastrand::Rng::with_seed(42);
    let mut r2 = fastrand::Rng::with_seed(42);
    let g1 = generate(60, 1, 5, &mut r1).expect("draw budget");
    let g2 = generate(60, 1, 5, &mut r2).expect("draw budget");
    assert_eq!(g1.adj, g2.adj);
    let mut r3 = fastrand::Rng::with_seed(43);
    let g3 = generate(60, 1, 5, &mut r3).expect("draw budget");
    assert_ne!(g1.adj, g3.adj);
}
